//! What an acknowledged append leaves in the object store.
use vstd::prelude::*;

use crate::actor::{lemma_not_deleting, opened, ActorSettings};
use crate::actor_laws::{
    durable, footer_fits, honest, id_fits, ids_grow, keeps, lemma_answer_durable,
    lemma_create_done_follows, lemma_draining_follows, lemma_fail_sealed, lemma_find_seq_bounds,
    lemma_find_state_bounds, lemma_flush_follows, lemma_last_of_region, lemma_new_ids_are_fresh,
    lemma_opened_is_valid, lemma_popped_follows, lemma_settle_front_follows,
    lemma_start_creates_follows, lemma_step_follows, lemma_take_in_follows,
    lemma_with_state_follows, Event,
};
use crate::actor_model::{
    acknowledge, answer_all, answer_durable, entry_records, exhausted, fail_pending, fail_sealed,
    fail_stalled, find_seq, find_state, in_flight, larger, largest_failed, lemma_flush_seals,
    raise_issued, raise_watermark, AckMode, ActionModel, ActorModel, CreateState,
    PendingModel, SealedModel, StalledModel, MAX_IN_FLIGHT_CREATES,
};
use crate::batch::{
    largest_id, lemma_count_of_gap, lemma_positions_left, placed, placed_last_ids,
};
use crate::catalog::{
    increasing_by_region, is_obsolete, lemma_by_region_of_increasing, lemma_deletable,
    lemma_entry_of, CatalogModel,
};
use crate::error::{Corruption, Error, Failure};
use crate::format::{
    footer_of, grouped, ids_increase, lemma_grouped, object_bytes, segment_in, unencodable,
    FooterEntry, Header, RecordModel,
};
use crate::id::{
    floor_of, id_at, lemma_floor_is_least, EntryId, RegionId, OBJECT_SEQ_LIMIT, POSITION_LIMIT,
};
use crate::logstore::{count_region, lemma_count_concat, with_id, Entry};
use crate::ordmap::{lemma_lists_keys, ordered_keys};
use crate::read_laws::{lemma_appended_entry_is_read_back, lemma_read_is_exact, read_records};
use crate::recovery::{
    indexed, lemma_found_segments_fit, lemma_restart_restores_objects,
    lemma_written_footer_is_found, listing, located, object_footer,
};
use crate::store::{read_segments, read_start, segment_fits};

verus! {

/// What happened around the actor.
#[verifier::ext_equal]
pub struct History {
    /// The entries of each append, by its waiter.
    pub appended: Map<u64, Seq<Entry>>,
    /// The largest durable ids of the regions when each append arrived, by its waiter.
    pub durable_before: Map<u64, Map<u64, EntryId>>,
    /// The bytes of each object that was created.
    pub created: Map<u64, Seq<u8>>,
    /// The objects that were deleted.
    pub deleted: Set<u64>,
    /// Whether a stop reported that an acknowledged backlog was dropped.
    pub lost: bool,
}

/// The id of the entry at place `i` of an append, counted back from the last id of its region.
pub open spec fn acknowledged_id(
    appended: Seq<Entry>,
    last_ids: Map<u64, EntryId>,
    i: int,
) -> int {
    let region = appended[i].region_id.0;
    last_ids[region] - (count_region(appended, region) - count_region(
        appended.take(i + 1),
        region,
    ))
}

/// The entry at place `i` of an append is among `entries`, under its id.
pub open spec fn entry_among(
    appended: Seq<Entry>,
    last_ids: Map<u64, EntryId>,
    i: int,
    entries: Seq<Entry>,
) -> bool {
    &&& last_ids.contains_key(appended[i].region_id.0)
    &&& exists|j: int|
        0 <= j < entries.len() && (#[trigger] entries[j]) == with_id(
            appended[i],
            entries[j].entry_id,
        ) && entries[j].entry_id == acknowledged_id(appended, last_ids, i)
}

/// Every entry of an append is among `entries`, under its id.
pub open spec fn among(
    appended: Seq<Entry>,
    last_ids: Map<u64, EntryId>,
    entries: Seq<Entry>,
) -> bool {
    forall|i: int|
        0 <= i < appended.len() ==> #[trigger] entry_among(appended, last_ids, i, entries)
}

/// The last ids name exactly the regions of the append, and the ids that are counted back from them
/// are above the ids that were durable before.
pub open spec fn assigned(
    appended: Seq<Entry>,
    last_ids: Map<u64, EntryId>,
    durable_before: Map<u64, EntryId>,
) -> bool {
    &&& forall|region: u64| #[trigger]
        last_ids.contains_key(region) <==> count_region(appended, region) > 0
    &&& forall|i: int|
        0 <= i < appended.len() ==> #[trigger] acknowledged_id(appended, last_ids, i)
            > largest_id(durable_before, appended[i].region_id.0)
}

/// The append of the waiter got its ids and is among `entries`.
pub open spec fn taken(
    history: History,
    waiter: u64,
    last_ids: Map<u64, EntryId>,
    entries: Seq<Entry>,
) -> bool {
    &&& assigned(history.appended[waiter], last_ids, history.durable_before[waiter])
    &&& among(history.appended[waiter], last_ids, entries)
}

/// The object is the one that `entries` are written as.
pub open spec fn written_from(
    object_seq: u64,
    writer_instance: u128,
    bytes: Seq<u8>,
    footer: Seq<FooterEntry>,
    entries: Seq<Entry>,
) -> bool {
    let records = entry_records(entries);
    &&& unencodable(records) is None
    &&& bytes == object_bytes(Header { object_seq, writer_instance }, grouped(records))
    &&& footer == footer_of(grouped(records))
}

/// The batch is made of `entries`, and the appends that wait for it are among them.
pub open spec fn made_of(
    batch: SealedModel,
    writer_instance: u128,
    history: History,
    entries: Seq<Entry>,
) -> bool {
    &&& written_from(batch.object_seq, writer_instance, batch.bytes, batch.footer, entries)
    &&& forall|k: int|
        0 <= k < batch.waiters.len() ==> taken(
            history,
            (#[trigger] batch.waiters[k]).waiter,
            batch.waiters[k].last_ids,
            entries,
        )
}

/// What holds of a sealed batch.
pub open spec fn batch_kept(batch: SealedModel, writer_instance: u128, history: History) -> bool {
    &&& batch.object_seq < OBJECT_SEQ_LIMIT
    &&& exists|entries: Seq<Entry>| #[trigger] made_of(batch, writer_instance, history, entries)
    &&& batch.state == CreateState::Created ==> history.created.contains_key(batch.object_seq)
        && history.created[batch.object_seq] == batch.bytes
}

/// The append is in the sealed batch.
pub open spec fn in_batch(
    batch: SealedModel,
    writer_instance: u128,
    appended: Seq<Entry>,
    last_ids: Map<u64, EntryId>,
) -> bool {
    exists|entries: Seq<Entry>| #[trigger]
        written_from(batch.object_seq, writer_instance, batch.bytes, batch.footer, entries)
            && among(appended, last_ids, entries)
}

/// The object is made of `entries`, the append is among them, and the object is indexed or was
/// deleted once it was obsolete.
pub open spec fn object_from(
    actor: ActorModel,
    history: History,
    object_seq: u64,
    appended: Seq<Entry>,
    last_ids: Map<u64, EntryId>,
    entries: Seq<Entry>,
) -> bool {
    let footer = footer_of(grouped(entry_records(entries)));
    &&& history.created.contains_key(object_seq)
    &&& written_from(
        object_seq,
        actor.writer_instance,
        history.created[object_seq],
        footer,
        entries,
    )
    &&& among(appended, last_ids, entries)
    &&& {
        ||| history.deleted.contains(object_seq) && is_obsolete(footer, actor.obsolete)
        ||| actor.catalog.objects.contains_key(object_seq)
            && actor.catalog.objects[object_seq] == footer
    }
}

/// The append is in the object.
pub open spec fn in_object(
    actor: ActorModel,
    history: History,
    object_seq: u64,
    appended: Seq<Entry>,
    last_ids: Map<u64, EntryId>,
) -> bool {
    exists|entries: Seq<Entry>| #[trigger]
        object_from(actor, history, object_seq, appended, last_ids, entries)
}

/// The append is in an object.
pub open spec fn stored(
    actor: ActorModel,
    history: History,
    appended: Seq<Entry>,
    last_ids: Map<u64, EntryId>,
) -> bool {
    exists|seq: u64| #[trigger] in_object(actor, history, seq, appended, last_ids)
}

/// The append is on its way into an object.
pub open spec fn queued(
    actor: ActorModel,
    appended: Seq<Entry>,
    last_ids: Map<u64, EntryId>,
) -> bool {
    ||| among(appended, last_ids, actor.batch.entries)
    ||| exists|k: int|
        0 <= k < actor.sealed.len() && in_batch(
            #[trigger] actor.sealed[k],
            actor.writer_instance,
            appended,
            last_ids,
        )
}

/// An acknowledged append got its ids and is in an object. In the enqueued mode it may also be on
/// its way, unless the store reports that it dropped its backlog.
pub open spec fn answered(actor: ActorModel, history: History, action: ActionModel) -> bool {
    match action {
        ActionModel::AnswerAppend { waiter, result: Ok(last_ids) } => {
            &&& assigned(history.appended[waiter], last_ids, history.durable_before[waiter])
            &&& {
                ||| stored(actor, history, history.appended[waiter], last_ids)
                ||| actor.ack_mode == AckMode::Enqueued && {
                    ||| queued(actor, history.appended[waiter], last_ids)
                    ||| actor.stop_error is Some
                    ||| history.lost
                }
            }
        },
        _ => true,
    }
}

/// The object gives the footer when it is read, if it fits into memory.
pub open spec fn gives_footer(object_seq: u64, bytes: Seq<u8>, footer: Seq<FooterEntry>) -> bool {
    bytes.len() <= usize::MAX ==> object_footer(object_seq, bytes) == Ok::<
        Seq<FooterEntry>,
        Corruption,
    >(footer)
}

/// Every indexed object was created and gives the footer that it is indexed with.
pub open spec fn indexed_as_created(
    objects: Map<u64, Seq<FooterEntry>>,
    created: Map<u64, Seq<u8>>,
) -> bool {
    forall|seq: u64| #[trigger]
        objects.contains_key(seq) ==> created.contains_key(seq) && gives_footer(
            seq,
            created[seq],
            objects[seq],
        )
}

/// The append of the waiter arrived with these entries, now or earlier.
pub open spec fn arrived(
    actor: ActorModel,
    history: History,
    entries: Seq<Entry>,
    waiter: u64,
) -> bool {
    &&& entries == history.appended[waiter]
    &&& ids_grow(history.durable_before[waiter], actor.catalog.max_ids)
}

/// What holds of the actor and of what happened around it.
#[verifier::opaque]
pub open spec fn accounts(actor: ActorModel, history: History) -> bool {
    &&& forall|i: int|
        0 <= i < actor.sealed.len() ==> batch_kept(
            #[trigger] actor.sealed[i],
            actor.writer_instance,
            history,
        )
    &&& forall|k: int|
        0 <= k < actor.pending.len() ==> taken(
            history,
            (#[trigger] actor.pending[k]).waiter,
            actor.pending[k].last_ids,
            actor.batch.entries,
        )
    &&& forall|k: int|
        0 <= k < actor.stalled.len() ==> arrived(
            actor,
            history,
            (#[trigger] actor.stalled[k]).entries,
            actor.stalled[k].waiter,
        )
    &&& actor.next_object_seq matches Some(next) ==> next < OBJECT_SEQ_LIMIT
    &&& indexed_as_created(actor.catalog.objects, history.created)
    &&& forall|seq: u64| #[trigger]
        actor.deleting.contains(seq) ==> actor.catalog.objects.contains_key(seq) && is_obsolete(
            actor.catalog.objects[seq],
            actor.obsolete,
        )
    &&& forall|i: int|
        0 <= i < actor.actions.len() ==> answered(actor, history, #[trigger] actor.actions[i])
}

/// Whether an action acknowledges an append.
pub open spec fn acknowledges(action: ActionModel) -> bool {
    action matches ActionModel::AnswerAppend { result: Ok(_), .. }
}

/// The actions of `before`, followed by actions that acknowledge nothing.
pub open spec fn acknowledges_no_more(before: Seq<ActionModel>, after: Seq<ActionModel>) -> bool {
    &&& before.len() <= after.len()
    &&& forall|i: int| 0 <= i < before.len() ==> #[trigger] after[i] == before[i]
    &&& forall|i: int|
        before.len() <= i < after.len() ==> !acknowledges(#[trigger] after[i])
}

/// The batches of both pipelines are the same but for who else waits and for their states; one
/// that became created is among the created objects.
pub open spec fn same_objects(
    before: Seq<SealedModel>,
    after: Seq<SealedModel>,
    history: History,
) -> bool {
    &&& before.len() == after.len()
    &&& forall|i: int|
        0 <= i < after.len() ==> {
            &&& (#[trigger] after[i]).object_seq == before[i].object_seq
            &&& after[i].bytes == before[i].bytes
            &&& after[i].footer == before[i].footer
            &&& after[i].waiters == before[i].waiters
            &&& after[i].state == CreateState::Created ==> before[i].state == CreateState::Created
                || history.created.contains_key(after[i].object_seq)
                && history.created[after[i].object_seq] == after[i].bytes
        }
}

/// An append that is in an object stays in it while the object is indexed.
proof fn lemma_stays_stored(
    before: ActorModel,
    after: ActorModel,
    history: History,
    appended: Seq<Entry>,
    last_ids: Map<u64, EntryId>,
)
    requires
        stored(before, history, appended, last_ids),
        after.writer_instance == before.writer_instance,
        ids_grow(before.obsolete, after.obsolete),
        forall|seq: u64| #[trigger]
            before.catalog.objects.contains_key(seq) ==> after.catalog.objects.contains_key(seq)
                && after.catalog.objects[seq] == before.catalog.objects[seq],
    ensures
        stored(after, history, appended, last_ids),
{
    let seq = choose|seq: u64| #[trigger] in_object(before, history, seq, appended, last_ids);
    let entries = choose|entries: Seq<Entry>| #[trigger]
        object_from(before, history, seq, appended, last_ids, entries);
    let footer = footer_of(grouped(entry_records(entries)));
    if is_obsolete(footer, before.obsolete) {
        lemma_stays_obsolete(footer, before.obsolete, after.obsolete);
    }
    assert(object_from(after, history, seq, appended, last_ids, entries));
    assert(in_object(after, history, seq, appended, last_ids));
}

/// What is obsolete stays so while the watermarks do not go down.
proof fn lemma_stays_obsolete(
    footer: Seq<FooterEntry>,
    before: Map<u64, EntryId>,
    after: Map<u64, EntryId>,
)
    requires
        is_obsolete(footer, before),
        ids_grow(before, after),
    ensures
        is_obsolete(footer, after),
{
    assert forall|i: int| 0 <= i < footer.len() implies after.contains_key(
        (#[trigger] footer[i]).region_id.0,
    ) && footer[i].max_entry_id <= after[footer[i].region_id.0] by {
        assert(before.contains_key(footer[i].region_id.0));
    }
}

/// A state that differs in the states of its batches, in who else waits or in what else is to be
/// done accounts for as much.
proof fn lemma_same_appends(before: ActorModel, after: ActorModel, history: History)
    requires
        accounts(before, history),
        same_objects(before.sealed, after.sealed, history),
        acknowledges_no_more(before.actions, after.actions),
        after.writer_instance == before.writer_instance,
        after.ack_mode == before.ack_mode,
        after.catalog.objects == before.catalog.objects,
        ids_grow(before.catalog.max_ids, after.catalog.max_ids),
        ids_grow(before.obsolete, after.obsolete),
        after.batch.entries == before.batch.entries,
        after.pending == before.pending || after.pending.len() == 0,
        forall|k: int|
            0 <= k < after.stalled.len() ==> before.stalled.contains(#[trigger] after.stalled[k]),
        after.deleting == before.deleting,
        after.next_object_seq matches Some(next) ==> next < OBJECT_SEQ_LIMIT,
        before.stop_error is Some ==> after.stop_error is Some || history.lost,
    ensures
        accounts(after, history),
{
    reveal(accounts);
    let writer = after.writer_instance;
    assert forall|i: int| 0 <= i < after.sealed.len() implies batch_kept(
        #[trigger] after.sealed[i],
        writer,
        history,
    ) by {
        assert(batch_kept(before.sealed[i], writer, history));
        let entries = choose|entries: Seq<Entry>| #[trigger]
            made_of(before.sealed[i], writer, history, entries);
        assert(made_of(after.sealed[i], writer, history, entries));
    }
    assert forall|seq: u64| #[trigger] after.deleting.contains(seq) implies
        after.catalog.objects.contains_key(seq) && is_obsolete(
        after.catalog.objects[seq],
        after.obsolete,
    ) by {
        assert(before.deleting.contains(seq));
        lemma_stays_obsolete(before.catalog.objects[seq], before.obsolete, after.obsolete);
    }
    assert forall|k: int| 0 <= k < after.stalled.len() implies arrived(
        after,
        history,
        (#[trigger] after.stalled[k]).entries,
        after.stalled[k].waiter,
    ) by {
        let j = before.stalled.index_of(after.stalled[k]);
        assert(before.stalled[j] == after.stalled[k]);
    }
    assert forall|i: int| 0 <= i < after.actions.len() implies answered(
        after,
        history,
        #[trigger] after.actions[i],
    ) by {
        if i < before.actions.len() {
            assert(after.actions[i] == before.actions[i]);
            assert(answered(before, history, before.actions[i]));
            lemma_stays_answered(before, after, history, after.actions[i]);
        } else {
            assert(!acknowledges(after.actions[i]));
        }
    }
}

/// What is accounted for stays so while the batches and the catalog stay.
proof fn lemma_stays_answered(
    before: ActorModel,
    after: ActorModel,
    history: History,
    action: ActionModel,
)
    requires
        answered(before, history, action),
        same_objects(before.sealed, after.sealed, history),
        after.writer_instance == before.writer_instance,
        after.ack_mode == before.ack_mode,
        after.catalog.objects == before.catalog.objects,
        ids_grow(before.obsolete, after.obsolete),
        after.batch.entries == before.batch.entries,
        before.stop_error is Some ==> after.stop_error is Some || history.lost,
    ensures
        answered(after, history, action),
{
    if let ActionModel::AnswerAppend { waiter, result: Ok(last_ids) } = action {
        let appended = history.appended[waiter];
        if stored(before, history, appended, last_ids) {
            lemma_stays_stored(before, after, history, appended, last_ids);
        } else if queued(before, appended, last_ids) {
            if !among(appended, last_ids, before.batch.entries) {
                let k = choose|k: int|
                    0 <= k < before.sealed.len() && in_batch(
                        #[trigger] before.sealed[k],
                        before.writer_instance,
                        appended,
                        last_ids,
                    );
                assert(in_batch(after.sealed[k], after.writer_instance, appended, last_ids));
            }
            assert(queued(after, appended, last_ids));
        }
    }
}

/// Dropping batches that are not durable loses nothing that was acknowledged in the durable mode,
/// and is reported in the enqueued mode.
proof fn lemma_drop_appends(before: ActorModel, after: ActorModel, history: History)
    requires
        accounts(before, history),
        before.ack_mode == AckMode::Durable || after.stop_error is Some || history.lost,
        after.sealed.len() <= before.sealed.len(),
        forall|i: int|
            0 <= i < after.sealed.len() ==> #[trigger] after.sealed[i] == before.sealed[i],
        acknowledges_no_more(before.actions, after.actions),
        after.writer_instance == before.writer_instance,
        after.ack_mode == before.ack_mode,
        after.catalog.objects == before.catalog.objects,
        ids_grow(before.catalog.max_ids, after.catalog.max_ids),
        ids_grow(before.obsolete, after.obsolete),
        after.pending.len() == 0,
        forall|k: int|
            0 <= k < after.stalled.len() ==> before.stalled.contains(#[trigger] after.stalled[k]),
        after.deleting == before.deleting,
        after.next_object_seq matches Some(next) ==> next < OBJECT_SEQ_LIMIT,
    ensures
        accounts(after, history),
{
    reveal(accounts);
    assert forall|i: int| 0 <= i < after.sealed.len() implies batch_kept(
        #[trigger] after.sealed[i],
        after.writer_instance,
        history,
    ) by {
        assert(batch_kept(before.sealed[i], before.writer_instance, history));
    }
    assert forall|seq: u64| #[trigger] after.deleting.contains(seq) implies
        after.catalog.objects.contains_key(seq) && is_obsolete(
        after.catalog.objects[seq],
        after.obsolete,
    ) by {
        assert(before.deleting.contains(seq));
        lemma_stays_obsolete(before.catalog.objects[seq], before.obsolete, after.obsolete);
    }
    assert forall|k: int| 0 <= k < after.stalled.len() implies arrived(
        after,
        history,
        (#[trigger] after.stalled[k]).entries,
        after.stalled[k].waiter,
    ) by {
        let j = before.stalled.index_of(after.stalled[k]);
        assert(before.stalled[j] == after.stalled[k]);
    }
    assert forall|i: int| 0 <= i < after.actions.len() implies answered(
        after,
        history,
        #[trigger] after.actions[i],
    ) by {
        if i < before.actions.len() {
            assert(after.actions[i] == before.actions[i]);
            assert(answered(before, history, before.actions[i]));
            if let ActionModel::AnswerAppend { waiter, result: Ok(last_ids) } = after.actions[i] {
                let appended = history.appended[waiter];
                if stored(before, history, appended, last_ids) {
                    lemma_stays_stored(before, after, history, appended, last_ids);
                }
            }
        } else {
            assert(!acknowledges(after.actions[i]));
        }
    }
}

/// Answers that acknowledge nothing.
proof fn lemma_no_acknowledgements(
    pending: Seq<PendingModel>,
    stalled: Seq<StalledModel>,
    sealed: Seq<SealedModel>,
    failure: Failure,
)
    ensures
        forall|i: int|
            0 <= i < fail_pending(pending, failure).len() ==> !acknowledges(
                #[trigger] fail_pending(pending, failure)[i],
            ),
        forall|i: int|
            0 <= i < fail_stalled(stalled, failure).len() ==> !acknowledges(
                #[trigger] fail_stalled(stalled, failure)[i],
            ),
        forall|i: int|
            0 <= i < fail_sealed(sealed, failure).len() ==> !acknowledges(
                #[trigger] fail_sealed(sealed, failure)[i],
            ),
{
    lemma_fail_sealed(sealed, failure);
}

proof fn lemma_fail_unacknowledged_accounts(actor: ActorModel, history: History, failure: Failure)
    requires
        accounts(actor, history),
    ensures
        accounts(actor.fail_unacknowledged(failure), history),
{
    let after = actor.fail_unacknowledged(failure);
    assert(actor.next_object_seq matches Some(next) ==> next < OBJECT_SEQ_LIMIT) by {
        reveal(accounts);
    }
    assert(acknowledges_no_more(actor.actions, after.actions));
    lemma_same_appends(actor, after, history);
}

/// Dropping the backlog acknowledges nothing.
proof fn lemma_drop_backlog_actions(actor: ActorModel, failure: Failure)
    ensures
        acknowledges_no_more(actor.actions, actor.drop_backlog(failure).actions),
{
    let after = actor.drop_backlog(failure);
    lemma_no_acknowledgements(actor.pending, actor.stalled, actor.sealed, failure);
    let first = actor.actions + fail_sealed(actor.sealed, failure);
    assert forall|i: int| 0 <= i < actor.actions.len() implies #[trigger] after.actions[i]
        == actor.actions[i] by {}
    assert forall|i: int| actor.actions.len() <= i < after.actions.len() implies !acknowledges(
        #[trigger] after.actions[i],
    ) by {
        if i < first.len() {
            assert(after.actions[i] == first[i]);
            assert(first[i] == fail_sealed(actor.sealed, failure)[i - actor.actions.len()]);
        }
    }
}

proof fn lemma_poison_accounts(
    actor: ActorModel,
    history: History,
    emptied: ActorModel,
    error: Error,
)
    requires
        accounts(actor, history),
        emptied == (ActorModel {
            batch: emptied.batch,
            next_object_seq: emptied.next_object_seq,
            ..actor
        }),
        emptied.next_object_seq == actor.next_object_seq || emptied.next_object_seq is None,
    ensures
        accounts(emptied.poison(error), history),
{
    reveal(ActorModel::poison);
    assert(actor.next_object_seq matches Some(next) ==> next < OBJECT_SEQ_LIMIT) by {
        reveal(accounts);
    }
    let recorded = emptied.set_terminal(error);
    lemma_drop_backlog_actions(recorded, recorded.failure(recorded.terminal->0));
    lemma_drop_appends(actor, emptied.poison(error), history);
}

proof fn lemma_roll_back_accounts(actor: ActorModel, history: History, error: Error)
    requires
        accounts(actor, history),
        actor.sealed.len() > 0,
    ensures
        accounts(actor.roll_back(actor.sealed[0].object_seq, error), history),
{
    reveal(ActorModel::roll_back);
    let object_seq = actor.sealed[0].object_seq;
    assert(object_seq < OBJECT_SEQ_LIMIT) by {
        reveal(accounts);
        assert(batch_kept(actor.sealed[0], actor.writer_instance, history));
    }
    let moved = ActorModel {
        next_object_seq: Some(object_seq),
        unresolved_object_seq: larger(actor.unresolved_object_seq, largest_failed(actor.sealed)),
        ..actor
    };
    lemma_drop_backlog_actions(moved, actor.failure(error));
    lemma_drop_appends(actor, actor.roll_back(object_seq, error), history);
}

proof fn lemma_start_from_accounts(actor: ActorModel, history: History, i: int, running: nat)
    requires
        accounts(actor, history),
    ensures
        accounts(actor.start_from(i, running), history),
    decreases actor.sealed.len() - i,
{
    if i < 0 || i >= actor.sealed.len() || running >= MAX_IN_FLIGHT_CREATES {
    } else if actor.sealed[i].state != CreateState::Pending {
        lemma_start_from_accounts(actor, history, i + 1, running);
    } else {
        let batch = actor.sealed[i];
        let next = ActorModel {
            sealed: actor.sealed.update(
                i,
                SealedModel {
                    state: CreateState::InFlight,
                    attempts: if batch.attempts == u32::MAX {
                        u32::MAX
                    } else {
                        (batch.attempts + 1) as u32
                    },
                    ..batch
                },
            ),
            creates: actor.creates.push(batch.object_seq),
            ..actor
        }.act(
            ActionModel::Create { object_seq: batch.object_seq, delayed: batch.attempts != 0 },
        );
        assert(actor.next_object_seq matches Some(next) ==> next < OBJECT_SEQ_LIMIT) by {
            reveal(accounts);
        }
        lemma_same_appends(actor, next, history);
        lemma_start_from_accounts(next, history, i + 1, running + 1);
    }
}

proof fn lemma_start_creates_accounts(actor: ActorModel, history: History)
    requires
        accounts(actor, history),
    ensures
        accounts(actor.start_creates(), history),
{
    reveal(ActorModel::start_creates);
    lemma_start_from_accounts(actor, history, 0, in_flight(actor.sealed));
}

/// The entries of the open batch are those of the batch that is sealed from it.
proof fn lemma_sealed_accounts(actor: ActorModel, history: History)
    requires
        accounts(actor, history),
        actor.seals(),
    ensures
        accounts(actor.sealed_noted(), history),
{
    reveal(accounts);
    let object_seq = actor.next_object_seq->0;
    let entries = actor.batch.entries;
    let batch = actor.sealed_batch(object_seq);
    let after = actor.sealed_noted();
    let writer = actor.writer_instance;
    assert(written_from(object_seq, writer, batch.bytes, batch.footer, entries));
    assert(made_of(batch, writer, history, entries));
    assert forall|i: int| 0 <= i < after.sealed.len() implies batch_kept(
        #[trigger] after.sealed[i],
        writer,
        history,
    ) by {
        if i < actor.sealed.len() {
            assert(after.sealed[i] == actor.sealed[i]);
            assert(batch_kept(actor.sealed[i], writer, history));
        } else {
            assert(after.sealed[i] == batch);
        }
    }
    assert forall|i: int| 0 <= i < after.actions.len() implies answered(
        after,
        history,
        #[trigger] after.actions[i],
    ) by {
        assert(answered(actor, history, actor.actions[i]));
        if let ActionModel::AnswerAppend { waiter, result: Ok(last_ids) } = after.actions[i] {
            let appended = history.appended[waiter];
            if stored(actor, history, appended, last_ids) {
                lemma_stays_stored(actor, after, history, appended, last_ids);
            } else if queued(actor, appended, last_ids) {
                if among(appended, last_ids, entries) {
                    let last = after.sealed.len() - 1;
                    assert(after.sealed[last] == batch);
                    assert(in_batch(after.sealed[last], writer, appended, last_ids));
                } else {
                    let k = choose|k: int|
                        0 <= k < actor.sealed.len() && in_batch(
                            #[trigger] actor.sealed[k],
                            writer,
                            appended,
                            last_ids,
                        );
                    assert(after.sealed[k] == actor.sealed[k]);
                }
            }
        }
    }
}

proof fn lemma_flush_accounts(actor: ActorModel, history: History)
    requires
        accounts(actor, history),
    ensures
        accounts(actor.flush(), history),
{
    reveal(ActorModel::flush);
    if actor.batch.entries.len() == 0 {
    } else if actor.terminal is Some {
        lemma_fail_unacknowledged_accounts(
            actor,
            history,
            Failure::Shared(actor.terminal->0),
        );
    } else if actor.next_object_seq is None {
        lemma_poison_accounts(actor, history, actor, exhausted());
    } else if let Some(reason) = unencodable(entry_records(actor.batch.entries)) {
        let emptied = ActorModel { batch: actor.batch.cleared(), ..actor };
        lemma_poison_accounts(actor, history, emptied, Error::UnencodableWalObject { reason });
    } else {
        lemma_sealed_accounts(actor, history);
        lemma_start_creates_accounts(actor.sealed_noted(), history);
    }
}

/// The entries of an append are among those of the batch that they are placed in, under the ids
/// that are counted back from the last ones.
proof fn lemma_placed_among(object_seq: u64, admitted: Seq<Entry>, entries: Seq<Entry>)
    requires
        object_seq < OBJECT_SEQ_LIMIT,
        crate::batch::exhausted_from(admitted, entries, 0) is None,
    ensures
        among(
            entries,
            placed_last_ids(object_seq, admitted, entries),
            admitted + placed(object_seq, admitted, entries),
        ),
        forall|i: int|
            0 <= i < entries.len() ==> #[trigger] acknowledged_id(
                entries,
                placed_last_ids(object_seq, admitted, entries),
                i,
            ) == placed(object_seq, admitted, entries)[i].entry_id,
{
    let new = placed(object_seq, admitted, entries);
    let all = admitted + new;
    let last_ids = placed_last_ids(object_seq, admitted, entries);
    lemma_positions_left(admitted, entries, 0);
    assert forall|i: int| 0 <= i < entries.len() implies #[trigger] entry_among(
        entries,
        last_ids,
        i,
        all,
    ) && acknowledged_id(entries, last_ids, i) == new[i].entry_id by {
        let region = entries[i].region_id.0;
        let upto = entries.take(i + 1);
        assert(upto.drop_last() =~= entries.take(i));
        assert(upto.last() == entries[i]);
        lemma_count_concat(upto, entries.skip(i + 1), region);
        assert(upto + entries.skip(i + 1) =~= entries);
        let at = lemma_last_of_region(entries, region);
        assert(count_region(admitted, entries[at].region_id.0) + count_region(
            entries.take(at + 1),
            region,
        ) < POSITION_LIMIT);
        let j = admitted.len() + i;
        assert(all[j] == new[i]);
        assert(all[j] == with_id(entries[i], all[j].entry_id));
        assert(all[j].entry_id == acknowledged_id(entries, last_ids, i));
    }
    assert forall|i: int| 0 <= i < entries.len() implies #[trigger] acknowledged_id(
        entries,
        last_ids,
        i,
    ) == new[i].entry_id by {
        assert(entry_among(entries, last_ids, i, all));
    }
}

/// An append stays among entries when more are added.
proof fn lemma_among_grows(
    appended: Seq<Entry>,
    last_ids: Map<u64, EntryId>,
    entries: Seq<Entry>,
    more: Seq<Entry>,
)
    requires
        among(appended, last_ids, entries),
    ensures
        among(appended, last_ids, entries + more),
{
    let all = entries + more;
    assert forall|i: int| 0 <= i < appended.len() implies #[trigger] entry_among(
        appended,
        last_ids,
        i,
        all,
    ) by {
        assert(entry_among(appended, last_ids, i, entries));
        let j = choose|j: int|
            0 <= j < entries.len() && (#[trigger] entries[j]) == with_id(
                appended[i],
                entries[j].entry_id,
            ) && entries[j].entry_id == acknowledged_id(appended, last_ids, i);
        assert(all[j] == entries[j]);
    }
}

proof fn lemma_enter_accounts(
    actor: ActorModel,
    history: History,
    entries: Seq<Entry>,
    waiter: u64,
    now: u64,
)
    requires
        accounts(actor, history),
        actor.valid(),
        actor.next_object_seq is Some,
        actor.batch.exhausted(entries) is None,
        arrived(actor, history, entries, waiter),
    ensures
        accounts(actor.enter(actor.next_object_seq->0, entries, waiter, now), history),
{
    reveal(ActorModel::enter);
    let object_seq = actor.next_object_seq->0;
    let last_ids = placed_last_ids(object_seq, actor.batch.entries, entries);
    let new = placed(object_seq, actor.batch.entries, entries);
    let entered = ActorModel {
        batch: actor.batch.with(object_seq, entries, now),
        issued: raise_issued(actor.issued, last_ids),
        ..actor
    };
    let noted = match actor.ack_mode {
        AckMode::Durable => ActorModel {
            pending: actor.pending.push(PendingModel { waiter, last_ids }),
            ..entered
        },
        AckMode::Enqueued => entered.answer_append(waiter, Ok(last_ids)),
    };
    assert(accounts(noted, history)) by {
        reveal(accounts);
        lemma_placed_among(object_seq, actor.batch.entries, entries);
        assert(noted.batch.entries == actor.batch.entries + new);
        assert(among(entries, last_ids, noted.batch.entries));
        assert forall|i: int| 0 <= i < entries.len() implies #[trigger] acknowledged_id(
            entries,
            last_ids,
            i,
        ) > largest_id(history.durable_before[waiter], entries[i].region_id.0) by {
            lemma_new_ids_are_fresh(actor, entries, i);
        }
        assert(assigned(entries, last_ids, history.durable_before[waiter]));
        assert forall|k: int| 0 <= k < noted.pending.len() implies taken(
            history,
            (#[trigger] noted.pending[k]).waiter,
            noted.pending[k].last_ids,
            noted.batch.entries,
        ) by {
            if k < actor.pending.len() {
                let pending = actor.pending[k];
                assert(noted.pending[k] == pending);
                lemma_among_grows(
                    history.appended[pending.waiter],
                    pending.last_ids,
                    actor.batch.entries,
                    new,
                );
            }
        }
        assert forall|i: int| 0 <= i < noted.actions.len() implies answered(
            noted,
            history,
            #[trigger] noted.actions[i],
        ) by {
            if i < actor.actions.len() {
                assert(noted.actions[i] == actor.actions[i]);
                assert(answered(actor, history, actor.actions[i]));
                if let ActionModel::AnswerAppend { waiter, result: Ok(ids) } = noted.actions[i] {
                    let appended = history.appended[waiter];
                    if stored(actor, history, appended, ids) {
                        lemma_stays_stored(actor, noted, history, appended, ids);
                    } else if among(appended, ids, actor.batch.entries) {
                        lemma_among_grows(appended, ids, actor.batch.entries, new);
                    }
                }
            }
        }
    }
    if noted.batch.full() {
        lemma_flush_accounts(noted, history);
    }
}

proof fn lemma_answer_accounts(actor: ActorModel, history: History, action: ActionModel)
    requires
        accounts(actor, history),
        !acknowledges(action),
    ensures
        accounts(actor.act(action), history),
{
    assert(actor.next_object_seq matches Some(next) ==> next < OBJECT_SEQ_LIMIT) by {
        reveal(accounts);
    }
    lemma_same_appends(actor, actor.act(action), history);
}

proof fn lemma_take_in_accounts(
    actor: ActorModel,
    history: History,
    entries: Seq<Entry>,
    waiter: u64,
    now: u64,
)
    requires
        accounts(actor, history),
        actor.valid(),
        arrived(actor, history, entries, waiter),
    ensures
        accounts(actor.take_in(entries, waiter, now), history),
{
    reveal(ActorModel::take_in);
    let seals_first = actor.batch.entries.len() > 0 && actor.batch.exhausted(entries) is Some;
    let open = if seals_first {
        actor.flush()
    } else {
        actor
    };
    lemma_flush_accounts(actor, history);
    lemma_flush_follows(actor);
    assert(arrived(open, history, entries, waiter)) by {
        reveal(keeps);
    }
    if seals_first && open.terminal is Some {
        lemma_answer_accounts(
            open,
            history,
            ActionModel::AnswerAppend {
                waiter,
                result: Err(Failure::Shared(open.terminal->0)),
            },
        );
    } else if open.next_object_seq is None {
        let poisoned = open.poison(exhausted());
        lemma_poison_accounts(open, history, open, exhausted());
        lemma_answer_accounts(
            poisoned,
            history,
            ActionModel::AnswerAppend {
                waiter,
                result: Err(Failure::Shared(poisoned.terminal->0)),
            },
        );
    } else if let Some(region_id) = open.batch.exhausted(entries) {
        lemma_answer_accounts(
            open,
            history,
            ActionModel::AnswerAppend {
                waiter,
                result: Err(Failure::Own(Error::WalEntryPositionExhausted { region_id })),
            },
        );
    } else {
        lemma_enter_accounts(open, history, entries, waiter, now);
    }
}

proof fn lemma_append_accounts(
    actor: ActorModel,
    history: History,
    entries: Seq<Entry>,
    waiter: u64,
    now: u64,
)
    requires
        accounts(actor, history),
        actor.valid(),
        arrived(actor, history, entries, waiter),
    ensures
        accounts(actor.append(entries, waiter, now), history),
{
    if actor.stopped {
        lemma_answer_accounts(
            actor,
            history,
            ActionModel::AnswerAppend {
                waiter,
                result: Err(Failure::Own(Error::ObjectStoreWalStopped)),
            },
        );
    } else if actor.terminal is Some {
        lemma_answer_accounts(
            actor,
            history,
            ActionModel::AnswerAppend {
                waiter,
                result: Err(Failure::Shared(actor.terminal->0)),
            },
        );
    } else if actor.ack_mode == AckMode::Enqueued && actor.at_threshold(now) {
        let held_back = ActorModel {
            stalled: actor.stalled.push(StalledModel { entries, waiter }),
            ..actor
        };
        assert(accounts(held_back, history)) by {
            reveal(accounts);
            assert forall|k: int| 0 <= k < held_back.stalled.len() implies arrived(
                held_back,
                history,
                (#[trigger] held_back.stalled[k]).entries,
                held_back.stalled[k].waiter,
            ) by {
                if k < actor.stalled.len() {
                    assert(held_back.stalled[k] == actor.stalled[k]);
                }
            }
            assert forall|i: int| 0 <= i < held_back.actions.len() implies answered(
                held_back,
                history,
                #[trigger] held_back.actions[i],
            ) by {
                assert(answered(actor, history, actor.actions[i]));
                lemma_stays_answered(actor, held_back, history, actor.actions[i]);
            }
        }
        lemma_flush_accounts(held_back, history);
    } else {
        lemma_take_in_accounts(actor, history, entries, waiter, now);
    }
}

proof fn lemma_release_accounts(actor: ActorModel, history: History, now: u64)
    requires
        accounts(actor, history),
        actor.valid(),
    ensures
        accounts(actor.release_stalled(now), history),
    decreases actor.stalled.len(),
{
    assert(actor.next_object_seq matches Some(next) ==> next < OBJECT_SEQ_LIMIT) by {
        reveal(accounts);
    }
    if actor.stalled.len() == 0 {
    } else if actor.stopped {
        let after = actor.release_stalled(now);
        lemma_no_acknowledgements(
            actor.pending,
            actor.stalled,
            actor.sealed,
            Failure::Own(Error::ObjectStoreWalStopped),
        );
        assert(acknowledges_no_more(actor.actions, after.actions));
        lemma_same_appends(actor, after, history);
    } else if actor.at_threshold(now) {
        lemma_flush_accounts(actor, history);
    } else {
        let first = actor.stalled[0];
        let popped = ActorModel { stalled: actor.stalled.drop_first(), ..actor };
        assert forall|k: int| 0 <= k < popped.stalled.len() implies actor.stalled.contains(
            #[trigger] popped.stalled[k],
        ) by {
            assert(popped.stalled[k] == actor.stalled[k + 1]);
        }
        lemma_same_appends(actor, popped, history);
        lemma_popped_follows(actor);
        assert(arrived(popped, history, first.entries, first.waiter)) by {
            reveal(accounts);
        }
        lemma_take_in_accounts(popped, history, first.entries, first.waiter, now);
        let next = popped.take_in(first.entries, first.waiter, now);
        lemma_take_in_follows(popped, first.entries, first.waiter, now);
        if next.stalled.len() < actor.stalled.len() {
            lemma_release_accounts(next, history, now);
        }
    }
}

/// A footer that entries are written under lists the regions in order.
proof fn lemma_footer_is_ordered(entries: Seq<Entry>)
    requires
        unencodable(entry_records(entries)) is None,
    ensures
        increasing_by_region(footer_of(grouped(entry_records(entries)))),
{
    let groups = grouped(entry_records(entries));
    lemma_grouped(entry_records(entries));
    lemma_lists_keys(groups);
    let footer = footer_of(groups);
    let keys = ordered_keys(groups);
    assert forall|i: int, j: int| 0 <= i < j < footer.len() implies footer[i].region_id.0
        < footer[j].region_id.0 by {
        assert(keys[i] < keys[j]);
    }
}

/// A batch whose object is indexed has its appends in that object.
proof fn lemma_indexed_is_stored(
    actor: ActorModel,
    history: History,
    batch: SealedModel,
    entries: Seq<Entry>,
    appended: Seq<Entry>,
    last_ids: Map<u64, EntryId>,
)
    requires
        written_from(
            batch.object_seq,
            actor.writer_instance,
            batch.bytes,
            batch.footer,
            entries,
        ),
        among(appended, last_ids, entries),
        history.created.contains_key(batch.object_seq),
        history.created[batch.object_seq] == batch.bytes,
        actor.catalog.objects.contains_key(batch.object_seq),
        actor.catalog.objects[batch.object_seq] == crate::catalog::by_region(batch.footer),
    ensures
        stored(actor, history, appended, last_ids),
{
    lemma_footer_is_ordered(entries);
    lemma_by_region_of_increasing(batch.footer);
    assert(object_from(actor, history, batch.object_seq, appended, last_ids, entries));
    assert(in_object(actor, history, batch.object_seq, appended, last_ids));
}

proof fn lemma_index_front_accounts(actor: ActorModel, history: History)
    requires
        accounts(actor, history),
        actor.sealed.len() > 0,
        actor.sealed[0].state == CreateState::Created,
    ensures
        accounts(actor.index_front(), history),
{
    let front = actor.sealed[0];
    let after = actor.index_front();
    if let Some(reason) = actor.catalog.rejection(front.object_seq, front.footer) {
        lemma_poison_accounts(actor, history, actor, Error::CorruptedWalObject { reason });
    } else {
        reveal(accounts);
        let writer = actor.writer_instance;
        assert(!actor.catalog.objects.contains_key(front.object_seq));
        assert(batch_kept(front, writer, history));
        let entries = choose|entries: Seq<Entry>| #[trigger]
            made_of(front, writer, history, entries);
        assert forall|i: int| 0 <= i < after.sealed.len() implies batch_kept(
            #[trigger] after.sealed[i],
            writer,
            history,
        ) by {
            assert(after.sealed[i] == actor.sealed[i + 1]);
            assert(batch_kept(actor.sealed[i + 1], writer, history));
        }
        assert(indexed_as_created(after.catalog.objects, history.created)) by {
            lemma_footer_is_ordered(entries);
            lemma_by_region_of_increasing(front.footer);
            let header = Header { object_seq: front.object_seq, writer_instance: writer };
            if front.bytes.len() <= usize::MAX {
                lemma_written_footer_is_found(header, entry_records(entries));
            }
        }
        let acks = acknowledge(front.waiters);
        let seals = answer_all(front.seal_waiters, Ok(()));
        let durable = answer_durable(actor.durable_waiters, after.catalog.max_ids);
        lemma_answer_durable(actor.durable_waiters, after.catalog.max_ids);
        assert(after.actions == actor.actions + acks + seals + durable);
        assert forall|i: int| 0 <= i < after.actions.len() implies answered(
            after,
            history,
            #[trigger] after.actions[i],
        ) by {
            if i < actor.actions.len() {
                assert(after.actions[i] == actor.actions[i]);
                assert(answered(actor, history, actor.actions[i]));
                lemma_indexed_keeps_answer(actor, history, actor.actions[i]);
            } else if i < actor.actions.len() + acks.len() {
                let k = i - actor.actions.len();
                assert(after.actions[i] == acks[k]);
                let pending = front.waiters[k];
                lemma_indexed_is_stored(
                    after,
                    history,
                    front,
                    entries,
                    history.appended[pending.waiter],
                    pending.last_ids,
                );
            } else {
                assert(after.actions[i] is Answer);
            }
        }
    }
}

/// Indexing the front keeps what is accounted for.
proof fn lemma_indexed_keeps_answer(actor: ActorModel, history: History, action: ActionModel)
    requires
        answered(actor, history, action),
        actor.sealed.len() > 0,
        actor.indexes_front(),
        history.created.contains_key(actor.sealed[0].object_seq),
        history.created[actor.sealed[0].object_seq] == actor.sealed[0].bytes,
    ensures
        answered(actor.index_front(), history, action),
{
    let after = actor.index_front();
    let front = actor.sealed[0];
    if let ActionModel::AnswerAppend { waiter, result: Ok(last_ids) } = action {
        let appended = history.appended[waiter];
        if stored(actor, history, appended, last_ids) {
            lemma_stays_stored(actor, after, history, appended, last_ids);
        } else if queued(actor, appended, last_ids) && !among(
            appended,
            last_ids,
            actor.batch.entries,
        ) {
            let k = choose|k: int|
                0 <= k < actor.sealed.len() && in_batch(
                    #[trigger] actor.sealed[k],
                    actor.writer_instance,
                    appended,
                    last_ids,
                );
            if k == 0 {
                let entries = choose|entries: Seq<Entry>| #[trigger]
                    written_from(
                        front.object_seq,
                        actor.writer_instance,
                        front.bytes,
                        front.footer,
                        entries,
                    ) && among(appended, last_ids, entries);
                lemma_indexed_is_stored(after, history, front, entries, appended, last_ids);
            } else {
                assert(after.sealed[k - 1] == actor.sealed[k]);
            }
        }
    }
}

proof fn lemma_settle_front_accounts(actor: ActorModel, history: History)
    requires
        accounts(actor, history),
    ensures
        accounts(actor.settle_front(), history),
    decreases actor.sealed.len(),
{
    if actor.sealed.len() > 0 {
        let front = actor.sealed[0];
        match front.state {
            CreateState::Pending => {},
            CreateState::InFlight => {},
            CreateState::Created => {
                lemma_index_front_accounts(actor, history);
                if actor.indexes_front() {
                    lemma_settle_front_accounts(actor.index_front(), history);
                }
            },
            CreateState::Failed(error) => {
                if find_state(actor.sealed, CreateState::InFlight, 0) is Some {
                } else if let Some(later) = find_state(actor.sealed, CreateState::Created, 1) {
                    lemma_poison_accounts(
                        actor,
                        history,
                        actor,
                        Error::WalObjectHistoryGap {
                            object_seq: front.object_seq,
                            later_object_seq: actor.sealed[later].object_seq,
                        },
                    );
                } else {
                    lemma_roll_back_accounts(actor, history, error);
                }
            },
        }
    }
}

proof fn lemma_settle_accounts(actor: ActorModel, history: History, now: u64)
    requires
        accounts(actor, history),
        actor.valid(),
    ensures
        accounts(actor.settle(now), history),
{
    lemma_settle_front_follows(actor);
    lemma_start_creates_follows(actor.settle_front());
    lemma_settle_front_accounts(actor, history);
    lemma_start_creates_accounts(actor.settle_front(), history);
    lemma_release_accounts(actor.settle_front().start_creates(), history, now);
}

proof fn lemma_create_completed_accounts(
    actor: ActorModel,
    history: History,
    object_seq: u64,
    result: Result<(), Error>,
    now: u64,
)
    requires
        accounts(actor, history),
        actor.valid(),
        result is Ok ==> (find_seq(actor.sealed, object_seq, 0) matches Some(i)
            ==> history.created.contains_key(object_seq) && history.created[object_seq]
            == actor.sealed[i].bytes),
    ensures
        accounts(actor.create_completed(object_seq, result, now), history),
{
    assert(actor.next_object_seq matches Some(next) ==> next < OBJECT_SEQ_LIMIT) by {
        reveal(accounts);
    }
    let done = actor.create_done(object_seq);
    lemma_same_appends(actor, done, history);
    lemma_create_done_follows(actor, object_seq);
    lemma_find_seq_bounds(actor.sealed, object_seq, 0);
    if let Some(i) = find_seq(actor.sealed, object_seq, 0) {
        match result {
            Ok(()) => {
                let noted = done.with_state(i, CreateState::Created);
                lemma_same_appends(done, noted, history);
                lemma_with_state_follows(done, i, CreateState::Created);
                lemma_settle_accounts(noted, history, now);
            },
            Err(error) => {
                if error is WalObjectStore {
                    if actor.ack_mode == AckMode::Enqueued && !actor.stopped {
                        let noted = done.with_state(i, CreateState::Pending);
                        lemma_same_appends(done, noted, history);
                        lemma_with_state_follows(done, i, CreateState::Pending);
                        lemma_settle_accounts(noted, history, now);
                    } else {
                        let noted = ActorModel {
                            draining: true,
                            ..done.with_state(i, CreateState::Failed(error))
                        };
                        lemma_same_appends(done, noted, history);
                        lemma_with_state_follows(done, i, CreateState::Failed(error));
                        lemma_draining_follows(done.with_state(i, CreateState::Failed(error)));
                        lemma_settle_accounts(noted, history, now);
                    }
                } else {
                    lemma_poison_accounts(done, history, done, error);
                }
            },
        }
    }
}

proof fn lemma_obsolete_accounts(
    actor: ActorModel,
    history: History,
    region_id: RegionId,
    entry_id: EntryId,
    watermark: EntryId,
    waiter: u64,
)
    requires
        accounts(actor, history),
        actor.catalog.valid(),
    ensures
        accounts(actor.obsolete_upto(region_id, entry_id, watermark, waiter), history),
{
    reveal(ActorModel::raise_sequence_floor);
    assert(actor.next_object_seq matches Some(next) ==> next < OBJECT_SEQ_LIMIT) by {
        reveal(accounts);
    }
    let raised = actor.raise_sequence_floor(region_id.0, entry_id);
    assert(accounts(raised, history)) by {
        if actor.needs_no_floor(region_id.0, entry_id) || actor.terminal is Some
            || actor.sealed.len() > 0 || !actor.settled_seq() {
        } else if floor_of(entry_id as int) < OBJECT_SEQ_LIMIT {
            lemma_same_appends(actor, raised, history);
        } else {
            let emptied = ActorModel { next_object_seq: None, ..actor };
            lemma_poison_accounts(actor, history, emptied, exhausted());
        }
    }
    assert(raised.catalog == actor.catalog) by {
        reveal(ActorModel::poison);
    }
    match actor.floor_failure(region_id.0, entry_id) {
        Some(failure) => {
            lemma_answer_accounts(
                raised,
                history,
                ActionModel::Answer { waiter, result: Err(failure) },
            );
        },
        None => {
            let noted = ActorModel {
                obsolete: raise_watermark(raised.obsolete, region_id.0, watermark),
                ..raised
            };
            assert(raised.next_object_seq matches Some(next) ==> next < OBJECT_SEQ_LIMIT) by {
                reveal(accounts);
            }
            lemma_same_appends(raised, noted, history);
            lemma_collect_accounts(noted, history);
            lemma_answer_accounts(
                noted.collect_garbage(),
                history,
                ActionModel::Answer { waiter, result: Ok(()) },
            );
        },
    }
}

proof fn lemma_collect_accounts(actor: ActorModel, history: History)
    requires
        accounts(actor, history),
        actor.catalog.valid(),
    ensures
        accounts(actor.collect_garbage(), history),
{
    reveal(ActorModel::collect_garbage);
    if !(actor.stopped || actor.terminal is Some) {
        reveal(accounts);
        let after = actor.collect_garbage();
        let found = actor.collectible();
        let all = actor.catalog.deletable(
            actor.obsolete,
            0,
            usize::MAX as int,
            usize::MAX as int,
        ).0;
        lemma_not_deleting(all, actor.deleting);
        lemma_deletable(actor.catalog, actor.obsolete, 0, usize::MAX as int, usize::MAX as int);
        assert forall|seq: u64| #[trigger] after.deleting.contains(seq) implies
            after.catalog.objects.contains_key(seq) && is_obsolete(
            after.catalog.objects[seq],
            after.obsolete,
        ) by {
            if !actor.deleting.contains(seq) {
                assert(found.to_set().contains(seq));
                assert(found.contains(seq));
                assert(all.contains(seq));
            }
        }
        assert forall|i: int| 0 <= i < after.actions.len() implies answered(
            after,
            history,
            #[trigger] after.actions[i],
        ) by {
            if i < actor.actions.len() {
                assert(after.actions[i] == actor.actions[i]);
                assert(answered(actor, history, actor.actions[i]));
                lemma_stays_answered(actor, after, history, actor.actions[i]);
            }
        }
    }
}

proof fn lemma_begin_exit_accounts(actor: ActorModel, history: History, waiter: u64)
    requires
        accounts(actor, history),
    ensures
        accounts(actor.begin_exit(waiter), history),
{
    assert(actor.next_object_seq matches Some(next) ==> next < OBJECT_SEQ_LIMIT) by {
        reveal(accounts);
    }
    let failure = Failure::Own(Error::ObjectStoreWalStopped);
    let after = actor.begin_exit(waiter);
    match actor.ack_mode {
        AckMode::Durable => {
            lemma_find_state_bounds(actor.sealed, CreateState::Pending, 0);
            let answers = actor.actions + fail_pending(actor.pending, failure);
            if let Some(at) = find_state(actor.sealed, CreateState::Pending, 0) {
                lemma_no_acknowledgements(
                    actor.pending,
                    actor.stalled,
                    actor.sealed.skip(at),
                    failure,
                );
                let rest = fail_sealed(actor.sealed.skip(at), failure);
                assert forall|i: int|
                    actor.actions.len() <= i < after.actions.len() implies !acknowledges(
                    #[trigger] after.actions[i],
                ) by {
                    if i >= answers.len() {
                        assert(after.actions[i] == rest[i - answers.len()]);
                    }
                }
                assert(actor.sealed[at].object_seq < OBJECT_SEQ_LIMIT) by {
                    reveal(accounts);
                    assert(batch_kept(actor.sealed[at], actor.writer_instance, history));
                }
            }
            assert(acknowledges_no_more(actor.actions, after.actions));
            lemma_drop_appends(actor, after, history);
        },
        AckMode::Enqueued => {
            let noted = ActorModel {
                stop: actor.stop.push(waiter),
                stalled: Seq::empty(),
                ..actor.act_all(fail_stalled(actor.stalled, failure))
            };
            assert(acknowledges_no_more(actor.actions, noted.actions));
            lemma_same_appends(actor, noted, history);
            lemma_flush_accounts(noted, history);
        },
    }
}

proof fn lemma_seal_accounts(actor: ActorModel, history: History, waiter: u64)
    requires
        accounts(actor, history),
    ensures
        accounts(actor.seal_requested(waiter), history),
{
    if actor.stopped {
        lemma_answer_accounts(
            actor,
            history,
            ActionModel::Answer {
                waiter,
                result: Err(Failure::Own(Error::ObjectStoreWalStopped)),
            },
        );
    } else {
        let flushed = actor.flush();
        lemma_flush_accounts(actor, history);
        if actor.seals() {
            lemma_flush_seals(actor);
            assert(flushed.next_object_seq matches Some(next) ==> next < OBJECT_SEQ_LIMIT) by {
                reveal(accounts);
            }
            lemma_same_appends(flushed, actor.seal_requested(waiter), history);
        } else {
            lemma_answer_accounts(
                flushed,
                history,
                ActionModel::Answer { waiter, result: flushed.health() },
            );
        }
    }
}

/// What an event says of the world around the actor: the append of a waiter is the recorded one and
/// arrives when what is recorded as durable is, and only an object that is being deleted is
/// reported as deleted.
pub open spec fn told(actor: ActorModel, history: History, event: Event) -> bool {
    match event {
        Event::Append { entries, waiter, .. } => entries == history.appended[waiter]
            && history.durable_before[waiter] == actor.catalog.max_ids,
        Event::DeleteCompleted { object_seq, deleted } => deleted ==> actor.deleting.contains(
            object_seq,
        ),
        _ => true,
    }
}

impl History {
    /// What happened once the event happens to the actor: a create that succeeds leaves the bytes
    /// of its batch under its sequence.
    pub open spec fn after(self, actor: ActorModel, event: Event) -> History {
        match event {
            Event::CreateCompleted { object_seq, result: Ok(()), .. } => match find_seq(
                actor.sealed,
                object_seq,
                0,
            ) {
                Some(i) => History {
                    created: self.created.insert(object_seq, actor.sealed[i].bytes),
                    ..self
                },
                None => self,
            },
            Event::DeleteCompleted { object_seq, deleted: true } => History {
                deleted: self.deleted.insert(object_seq),
                ..self
            },
            Event::FinishStop => History {
                lost: self.lost || actor.may_exit() && actor.stop_error is Some,
                ..self
            },
            _ => self,
        }
    }
}

/// The actor and what happened around it.
#[verifier::ext_equal]
pub struct World {
    pub actor: ActorModel,
    pub history: History,
}

impl World {
    /// What holds of the world in every state.
    pub open spec fn valid(self) -> bool {
        &&& self.actor.valid()
        &&& accounts(self.actor, self.history)
        &&& forall|i: int|
            0 <= i < self.actor.actions.len() ==> honest(
                self.actor,
                #[trigger] self.actor.actions[i],
            )
        &&& forall|seq: u64| #[trigger]
            self.history.deleted.contains(seq) && self.actor.has_seq() ==> seq
                < self.actor.lowest_object_seq()
    }

    /// The world after an event.
    pub open spec fn step(self, event: Event) -> World {
        World { actor: self.actor.step(event), history: self.history.after(self.actor, event) }
    }

    /// The world after several events.
    pub open spec fn run(self, events: Seq<Event>) -> World
        decreases events.len(),
    {
        if events.len() == 0 {
            self
        } else {
            self.run(events.drop_last()).step(events.last())
        }
    }

    /// Every event says what is so when it happens.
    pub open spec fn told_of(self, events: Seq<Event>) -> bool
        decreases events.len(),
    {
        events.len() > 0 ==> {
            let earlier = self.run(events.drop_last());
            self.told_of(events.drop_last()) && told(
                earlier.actor,
                earlier.history,
                events.last(),
            )
        }
    }
}

/// A store opened on a catalog that was recovered from the objects has acknowledged nothing yet.
pub proof fn lemma_opened_accounts(
    settings: ActorSettings,
    catalog: CatalogModel,
    next_object_seq: u64,
    durable_ids: Map<u64, EntryId>,
    history: History,
)
    requires
        catalog.valid(),
        next_object_seq == catalog.next_seq(),
        next_object_seq < OBJECT_SEQ_LIMIT,
        durable(durable_ids, catalog.max_ids),
        history.deleted == Set::<u64>::empty(),
        indexed_as_created(catalog.objects, history.created),
    ensures
        ({
            let actor = opened(settings, catalog, next_object_seq, durable_ids);
            World { actor, history }.valid()
        }),
{
    reveal(accounts);
    lemma_opened_is_valid(settings, catalog, next_object_seq, durable_ids);
}

/// Creating the object of a sealed batch overwrites no object that is indexed or was deleted.
proof fn lemma_created_accounts(world: World, object_seq: u64, i: int)
    requires
        world.valid(),
        0 <= i < world.actor.sealed.len(),
        world.actor.sealed[i].object_seq == object_seq,
    ensures
        accounts(
            world.actor,
            History {
                created: world.history.created.insert(object_seq, world.actor.sealed[i].bytes),
                ..world.history
            },
        ),
{
    reveal(accounts);
    reveal(ActorModel::valid);
    let actor = world.actor;
    let before = world.history;
    let after = History {
        created: before.created.insert(object_seq, actor.sealed[i].bytes),
        ..before
    };
    let writer = actor.writer_instance;
    assert(actor.lowest_object_seq() <= object_seq) by {
        if i > 0 {
            assert(actor.sealed[0].object_seq < actor.sealed[i].object_seq);
        }
    }
    assert(!before.deleted.contains(object_seq));
    assert(!actor.catalog.objects.contains_key(object_seq));
    assert forall|j: int| 0 <= j < actor.sealed.len() implies batch_kept(
        #[trigger] actor.sealed[j],
        writer,
        after,
    ) by {
        assert(batch_kept(actor.sealed[j], writer, before));
        let entries = choose|entries: Seq<Entry>| #[trigger]
            made_of(actor.sealed[j], writer, before, entries);
        assert(made_of(actor.sealed[j], writer, after, entries));
        if j < i {
            assert(actor.sealed[j].object_seq < actor.sealed[i].object_seq);
        } else if i < j {
            assert(actor.sealed[i].object_seq < actor.sealed[j].object_seq);
        }
    }
    assert forall|j: int| 0 <= j < actor.actions.len() implies answered(
        actor,
        after,
        #[trigger] actor.actions[j],
    ) by {
        assert(answered(actor, before, actor.actions[j]));
        if let ActionModel::AnswerAppend { waiter, result: Ok(last_ids) } = actor.actions[j] {
            let appended = before.appended[waiter];
            if stored(actor, before, appended, last_ids) {
                let seq = choose|seq: u64| #[trigger]
                    in_object(actor, before, seq, appended, last_ids);
                let entries = choose|entries: Seq<Entry>| #[trigger]
                    object_from(actor, before, seq, appended, last_ids, entries);
                assert(seq != object_seq);
                assert(object_from(actor, after, seq, appended, last_ids, entries));
                assert(in_object(actor, after, seq, appended, last_ids));
            }
        }
    }
}

/// A deleted object was obsolete.
proof fn lemma_deleted_accounts(world: World, object_seq: u64)
    requires
        world.valid(),
        world.actor.deleting.contains(object_seq),
    ensures
        accounts(
            world.actor.delete_completed(object_seq, true),
            History { deleted: world.history.deleted.insert(object_seq), ..world.history },
        ),
{
    reveal(accounts);
    let actor = world.actor;
    let before = world.history;
    let after = actor.delete_completed(object_seq, true);
    let history = History { deleted: before.deleted.insert(object_seq), ..before };
    let writer = actor.writer_instance;
    assert forall|j: int| 0 <= j < after.sealed.len() implies batch_kept(
        #[trigger] after.sealed[j],
        writer,
        history,
    ) by {
        assert(batch_kept(actor.sealed[j], writer, before));
        let entries = choose|entries: Seq<Entry>| #[trigger]
            made_of(actor.sealed[j], writer, before, entries);
        assert(made_of(after.sealed[j], writer, history, entries));
    }
    assert forall|j: int| 0 <= j < after.actions.len() implies answered(
        after,
        history,
        #[trigger] after.actions[j],
    ) by {
        assert(answered(actor, before, actor.actions[j]));
        if let ActionModel::AnswerAppend { waiter, result: Ok(last_ids) } = after.actions[j] {
            let appended = before.appended[waiter];
            if stored(actor, before, appended, last_ids) {
                let seq = choose|seq: u64| #[trigger]
                    in_object(actor, before, seq, appended, last_ids);
                let entries = choose|entries: Seq<Entry>| #[trigger]
                    object_from(actor, before, seq, appended, last_ids, entries);
                assert(object_from(after, history, seq, appended, last_ids, entries));
                assert(in_object(after, history, seq, appended, last_ids));
            } else if queued(actor, appended, last_ids) && !among(
                appended,
                last_ids,
                actor.batch.entries,
            ) {
                let k = choose|k: int|
                    0 <= k < actor.sealed.len() && in_batch(
                        #[trigger] actor.sealed[k],
                        writer,
                        appended,
                        last_ids,
                    );
                assert(after.sealed[k] == actor.sealed[k]);
            }
        }
    }
}

/// Nothing that was acknowledged is lost: with every event each acknowledged append stays in an
/// object, or, in the enqueued mode, on its way into one, unless the store reports that it dropped
/// its backlog.
pub proof fn lemma_step_accounts(world: World, event: Event)
    requires
        world.valid(),
        told(world.actor, world.history, event),
    ensures
        world.step(event).valid(),
{
    let actor = world.actor;
    let history = world.history;
    let after = world.step(event);
    lemma_step_follows(actor, event);
    assert(actor.next_object_seq matches Some(next) ==> next < OBJECT_SEQ_LIMIT) by {
        reveal(accounts);
    }
    assert(accounts(after.actor, after.history)) by {
        match event {
            Event::Append { entries, waiter, now } => {
                lemma_append_accounts(actor, history, entries, waiter, now);
            },
            Event::CreateCompleted { object_seq, result, now } => {
                lemma_find_seq_bounds(actor.sealed, object_seq, 0);
                if let Some(i) = find_seq(actor.sealed, object_seq, 0) {
                    if result is Ok {
                        lemma_created_accounts(world, object_seq, i);
                    }
                }
                lemma_create_completed_accounts(actor, after.history, object_seq, result, now);
            },
            Event::DeleteCompleted { object_seq, deleted } => {
                if deleted {
                    lemma_deleted_accounts(world, object_seq);
                } else {
                    reveal(accounts);
                    assert forall|i: int| 0 <= i < after.actor.actions.len() implies answered(
                        after.actor,
                        history,
                        #[trigger] after.actor.actions[i],
                    ) by {
                        assert(answered(actor, history, actor.actions[i]));
                        lemma_stays_answered(actor, after.actor, history, actor.actions[i]);
                    }
                }
            },
            Event::WaitDurable { region_id, entry_id, waiter } => {
                lemma_same_appends(actor, after.actor, history);
            },
            Event::Obsolete { region_id, entry_id, watermark, waiter } => {
                assert(actor.catalog.valid()) by {
                    reveal(ActorModel::valid);
                }
                lemma_obsolete_accounts(
                    actor,
                    history,
                    region_id,
                    entry_id,
                    watermark,
                    waiter,
                );
            },
            Event::RecordObsolete { region_id, entry_id } => {
                lemma_same_appends(actor, after.actor, history);
            },
            Event::Seal { waiter } => {
                lemma_seal_accounts(actor, history, waiter);
            },
            Event::Tick => {
                lemma_flush_accounts(actor, history);
            },
            Event::BeginStop => {
                lemma_same_appends(actor, after.actor, history);
            },
            Event::Stop { waiter } => {
                lemma_begin_exit_accounts(actor, history, waiter);
            },
            Event::FinishStop => {
                lemma_finish_accounts(actor, history);
            },
        }
    }
    assert forall|i: int| 0 <= i < after.actor.actions.len() implies honest(
        after.actor,
        #[trigger] after.actor.actions[i],
    ) by {
        reveal(keeps);
        if i < actor.actions.len() {
            assert(after.actor.actions[i] == actor.actions[i]);
            assert(honest(actor, actor.actions[i]));
        }
    }
    assert forall|seq: u64| #[trigger]
        after.history.deleted.contains(seq) && after.actor.has_seq() implies seq
        < after.actor.lowest_object_seq() by {
        reveal(keeps);
        if !history.deleted.contains(seq) {
            reveal(accounts);
            reveal(ActorModel::valid);
            assert(actor.deleting.contains(seq));
            assert(actor.catalog.objects.contains_key(seq));
        }
    }
}

/// A stop that reports a dropped backlog is remembered.
proof fn lemma_finish_accounts(actor: ActorModel, history: History)
    requires
        accounts(actor, history),
    ensures
        accounts(actor.finish_exit(), history.after(actor, Event::FinishStop)),
{
    reveal(accounts);
    let noted = history.after(actor, Event::FinishStop);
    assert forall|i: int| 0 <= i < actor.sealed.len() implies batch_kept(
        #[trigger] actor.sealed[i],
        actor.writer_instance,
        noted,
    ) by {
        assert(batch_kept(actor.sealed[i], actor.writer_instance, history));
        let entries = choose|entries: Seq<Entry>| #[trigger]
            made_of(actor.sealed[i], actor.writer_instance, history, entries);
        assert(made_of(actor.sealed[i], actor.writer_instance, noted, entries));
    }
    assert forall|i: int| 0 <= i < actor.actions.len() implies answered(
        actor,
        noted,
        #[trigger] actor.actions[i],
    ) by {
        assert(answered(actor, history, actor.actions[i]));
        if let ActionModel::AnswerAppend { waiter, result: Ok(last_ids) } = actor.actions[i] {
            let appended = history.appended[waiter];
            if stored(actor, history, appended, last_ids) {
                let seq = choose|seq: u64| #[trigger]
                    in_object(actor, history, seq, appended, last_ids);
                let entries = choose|entries: Seq<Entry>| #[trigger]
                    object_from(actor, history, seq, appended, last_ids, entries);
                assert(object_from(actor, noted, seq, appended, last_ids, entries));
                assert(in_object(actor, noted, seq, appended, last_ids));
            }
        }
    }
    assert(accounts(actor, noted));
    lemma_same_appends(actor, actor.finish_exit(), noted);
}

/// Nothing that was acknowledged is lost over any run.
pub proof fn lemma_run_accounts(world: World, events: Seq<Event>)
    requires
        world.valid(),
        world.told_of(events),
    ensures
        world.run(events).valid(),
    decreases events.len(),
{
    if events.len() > 0 {
        lemma_run_accounts(world, events.drop_last());
        lemma_step_accounts(world.run(events.drop_last()), events.last());
    }
}

/// The watermark of the region, if it has one.
pub open spec fn watermark_of(obsolete: Map<u64, EntryId>, region: u64) -> Option<EntryId> {
    if obsolete.contains_key(region) {
        Some(obsolete[region])
    } else {
        None
    }
}

/// What the segment that the footer entry describes holds in the object.
pub open spec fn segment_of(bytes: Seq<u8>, entry: FooterEntry) -> Result<
    Seq<RecordModel>,
    Corruption,
> {
    segment_in(
        bytes.subrange(
            entry.segment_offset as int,
            entry.segment_offset + entry.segment_len,
        ),
        entry,
    )
}

/// The segments of the region hold the records of `stored`.
pub open spec fn segments_hold(
    world: World,
    region: u64,
    stored: Map<u64, Seq<RecordModel>>,
) -> bool {
    forall|seq: u64| #[trigger]
        world.actor.catalog.region(region).contains_key(seq) ==> segment_of(
            world.history.created[seq],
            world.actor.catalog.region(region)[seq],
        ) == Ok::<Seq<RecordModel>, Corruption>(stored[seq])
}

/// The record that the entry at place `i` of an append is read back as.
pub open spec fn acknowledged_record(
    appended: Seq<Entry>,
    last_ids: Map<u64, EntryId>,
    i: int,
) -> RecordModel {
    RecordModel {
        region: appended[i].region_id.0,
        entry_id: acknowledged_id(appended, last_ids, i) as u64,
        payload: appended[i].data@,
    }
}

/// The ids of an append do not exceed the last one of their region.
proof fn lemma_id_upto_last(appended: Seq<Entry>, last_ids: Map<u64, EntryId>, i: int)
    requires
        0 <= i < appended.len(),
    ensures
        acknowledged_id(appended, last_ids, i) <= last_ids[appended[i].region_id.0],
{
    lemma_count_concat(appended.take(i + 1), appended.skip(i + 1), appended[i].region_id.0);
    assert(appended.take(i + 1) + appended.skip(i + 1) =~= appended);
}

/// The footer that entries are written under has the ids of each entry in the range of its region.
proof fn lemma_footer_has(entries: Seq<Entry>, j: int) -> (at: int)
    requires
        unencodable(entry_records(entries)) is None,
        0 <= j < entries.len(),
    ensures
        ({
            let footer = footer_of(grouped(entry_records(entries)));
            &&& 0 <= at < footer.len()
            &&& footer[at].region_id.0 == entries[j].region_id.0
            &&& footer[at].min_entry_id <= entries[j].entry_id <= footer[at].max_entry_id
        }),
{
    let records = entry_records(entries);
    let groups = grouped(records);
    let keys = ordered_keys(groups);
    let region = entries[j].region_id.0;
    lemma_grouped(records);
    lemma_lists_keys(groups);
    assert(records.contains(records[j]));
    assert(groups.contains_key(region));
    assert(keys.contains(region));
    let group = groups[region];
    let k = group.index_of(records[j]);
    assert(group[k] == records[j]);
    assert(ids_increase(group));
    if 0 < k {
        assert(group[0].entry_id < group[k].entry_id);
    }
    if k < group.len() - 1 {
        assert(group[k].entry_id < group[group.len() - 1].entry_id);
    }
    keys.index_of(region)
}

/// An append that is on its way is not durable.
proof fn lemma_queued_is_not_durable(
    actor: ActorModel,
    appended: Seq<Entry>,
    last_ids: Map<u64, EntryId>,
    i: int,
)
    requires
        actor.valid(),
        queued(actor, appended, last_ids),
        0 <= i < appended.len(),
    ensures
        last_ids.contains_key(appended[i].region_id.0),
        !durable(last_ids, actor.catalog.max_ids),
{
    reveal(ActorModel::valid);
    let region = appended[i].region_id.0;
    let max_ids = actor.catalog.max_ids;
    lemma_id_upto_last(appended, last_ids, i);
    if among(appended, last_ids, actor.batch.entries) {
        let entries = actor.batch.entries;
        assert(entry_among(appended, last_ids, i, entries));
        let j = choose|j: int|
            0 <= j < entries.len() && (#[trigger] entries[j]) == with_id(
                appended[i],
                entries[j].entry_id,
            ) && entries[j].entry_id == acknowledged_id(appended, last_ids, i);
        let next = actor.next_object_seq->0;
        assert(id_fits(entries, next, j));
        assert(entries.take(j + 1).last() == entries[j]);
        assert(count_region(entries.take(j + 1), region) >= 1);
        if max_ids.contains_key(region) {
            lemma_floor_is_least(max_ids[region] as int);
            assert(floor_of(max_ids[region] as int) <= actor.lowest_object_seq());
            if actor.sealed.len() > 0 {
                assert(actor.sealed[0].object_seq < next);
            }
            assert(max_ids[region] < id_at(floor_of(max_ids[region] as int), 1));
        }
    } else {
        let k = choose|k: int|
            0 <= k < actor.sealed.len() && in_batch(
                #[trigger] actor.sealed[k],
                actor.writer_instance,
                appended,
                last_ids,
            );
        let batch = actor.sealed[k];
        let entries = choose|entries: Seq<Entry>| #[trigger]
            written_from(
                batch.object_seq,
                actor.writer_instance,
                batch.bytes,
                batch.footer,
                entries,
            ) && among(appended, last_ids, entries);
        assert(entry_among(appended, last_ids, i, entries));
        let j = choose|j: int|
            0 <= j < entries.len() && (#[trigger] entries[j]) == with_id(
                appended[i],
                entries[j].entry_id,
            ) && entries[j].entry_id == acknowledged_id(appended, last_ids, i);
        let at = lemma_footer_has(entries, j);
        assert(footer_fits(batch.footer, batch.object_seq));
        assert(id_at(batch.object_seq as int, 1) <= batch.footer[at].min_entry_id);
        if max_ids.contains_key(region) {
            lemma_floor_is_least(max_ids[region] as int);
            assert(floor_of(max_ids[region] as int) <= actor.lowest_object_seq());
            if k > 0 {
                assert(actor.sealed[0].object_seq < actor.sealed[k].object_seq);
            }
            assert(max_ids[region] < id_at(floor_of(max_ids[region] as int), 1));
        }
    }
}

/// What an acknowledgement says: it names exactly the regions of the append, none if the append has
/// no entries. The entries of a region got increasing ids in their order, the last of them the one
/// that is named, and all of them above every id that was durable for the region when the append
/// arrived. In the durable mode all of them are durable.
pub proof fn lemma_acknowledged_ids(
    world: World,
    k: int,
    waiter: u64,
    last_ids: Map<u64, EntryId>,
)
    requires
        world.valid(),
        0 <= k < world.actor.actions.len(),
        world.actor.actions[k] == (ActionModel::AnswerAppend { waiter, result: Ok(last_ids) }),
    ensures
        ({
            let appended = world.history.appended[waiter];
            let before = world.history.durable_before[waiter];
            &&& forall|region: u64| #[trigger]
                last_ids.contains_key(region) <==> exists|i: int|
                    0 <= i < appended.len() && (#[trigger] appended[i]).region_id.0 == region
            &&& forall|i: int, j: int|
                0 <= i < j < appended.len() && appended[i].region_id == appended[j].region_id
                    ==> #[trigger] acknowledged_id(appended, last_ids, i)
                    < #[trigger] acknowledged_id(appended, last_ids, j)
            &&& forall|i: int|
                0 <= i < appended.len() ==> {
                    let id = #[trigger] acknowledged_id(appended, last_ids, i);
                    let region = appended[i].region_id.0;
                    &&& largest_id(before, region) < id <= last_ids[region]
                    &&& id == last_ids[region] <==> forall|j: int|
                        i < j < appended.len() ==> (#[trigger] appended[j]).region_id.0 != region
                }
            &&& world.actor.ack_mode == AckMode::Durable ==> durable(
                last_ids,
                world.actor.catalog.max_ids,
            )
        }),
{
    let appended = world.history.appended[waiter];
    let before = world.history.durable_before[waiter];
    assert(honest(world.actor, world.actor.actions[k]));
    assert(answered(world.actor, world.history, world.actor.actions[k])) by {
        reveal(accounts);
    }
    assert forall|region: u64| #[trigger] last_ids.contains_key(region) <==> exists|i: int|
        0 <= i < appended.len() && (#[trigger] appended[i]).region_id.0 == region by {
        if count_region(appended, region) > 0 {
            let at = lemma_last_of_region(appended, region);
            assert(appended[at].region_id.0 == region);
        }
        if exists|i: int|
            0 <= i < appended.len() && (#[trigger] appended[i]).region_id.0 == region {
            let i = choose|i: int|
                0 <= i < appended.len() && (#[trigger] appended[i]).region_id.0 == region;
            lemma_counted(appended, i, i + 1);
            lemma_counted(appended, i, appended.len() as int);
            assert(appended.take(appended.len() as int) =~= appended);
        }
    }
    assert forall|i: int, j: int|
        0 <= i < j < appended.len() && appended[i].region_id == appended[j].region_id implies
        #[trigger] acknowledged_id(appended, last_ids, i) < #[trigger] acknowledged_id(
        appended,
        last_ids,
        j,
    ) by {
        lemma_counted(appended, j, i + 1);
    }
    assert forall|i: int| 0 <= i < appended.len() implies {
        let id = #[trigger] acknowledged_id(appended, last_ids, i);
        let region = appended[i].region_id.0;
        &&& largest_id(before, region) < id <= last_ids[region]
        &&& id == last_ids[region] <==> forall|j: int|
            i < j < appended.len() ==> (#[trigger] appended[j]).region_id.0 != region
    } by {
        let id = acknowledged_id(appended, last_ids, i);
        let region = appended[i].region_id.0;
        lemma_id_upto_last(appended, last_ids, i);
        assert(appended.take(appended.len() as int) =~= appended);
        if id == last_ids[region] {
            assert forall|j: int| i < j < appended.len() implies (
            #[trigger] appended[j]).region_id.0 != region by {
                if appended[j].region_id.0 == region {
                    lemma_counted(appended, j, i + 1);
                    lemma_counted(appended, j, appended.len() as int);
                }
            }
        }
        if forall|j: int|
            i < j < appended.len() ==> (#[trigger] appended[j]).region_id.0 != region {
            lemma_count_of_gap(appended, region, i + 1, appended.len() as int);
        }
    }
}

/// The entry at place `j` is counted among the first entries that it is one of, and not among
/// those before it.
proof fn lemma_counted(entries: Seq<Entry>, j: int, n: int)
    requires
        0 <= j < entries.len(),
        0 <= n <= entries.len(),
    ensures
        ({
            let region = entries[j].region_id.0;
            let upto = count_region(entries.take(j + 1), region);
            &&& upto > 0
            &&& n <= j ==> count_region(entries.take(n), region) < upto
            &&& j < n ==> upto <= count_region(entries.take(n), region)
        }),
{
    let region = entries[j].region_id.0;
    let upto = entries.take(j + 1);
    assert(upto.drop_last() =~= entries.take(j));
    if n <= j {
        lemma_count_concat(entries.take(n), entries.subrange(n, j), region);
        assert(entries.take(n) + entries.subrange(n, j) =~= entries.take(j));
    } else {
        lemma_count_concat(upto, entries.subrange(j + 1, n), region);
        assert(upto + entries.subrange(j + 1, n) =~= entries.take(n));
    }
}

/// What was acknowledged is read back: an entry of an append that was acknowledged, in the
/// enqueued mode once it is durable, is returned by a read of its region, with its data and under
/// the id that the acknowledgement gives it, exactly if that id is at or above the asked one and
/// above the watermark of the region.
pub proof fn lemma_acknowledged_append_is_read(
    world: World,
    k: int,
    waiter: u64,
    last_ids: Map<u64, EntryId>,
    i: int,
    stored: Map<u64, Seq<RecordModel>>,
    entry_id: EntryId,
)
    requires
        world.valid(),
        0 <= k < world.actor.actions.len(),
        world.actor.actions[k] == (ActionModel::AnswerAppend { waiter, result: Ok(last_ids) }),
        world.actor.ack_mode == AckMode::Durable || durable(
            last_ids,
            world.actor.catalog.max_ids,
        ) && world.actor.stop_error is None && !world.history.lost,
        0 <= i < world.history.appended[waiter].len(),
        segments_hold(world, world.history.appended[waiter][i].region_id.0, stored),
        forall|seq: u64| #[trigger]
            world.history.created.contains_key(seq) ==> world.history.created[seq].len()
                <= usize::MAX,
    ensures
        ({
            let appended = world.history.appended[waiter];
            let record = acknowledged_record(appended, last_ids, i);
            let catalog = world.actor.catalog;
            let watermark = watermark_of(world.actor.obsolete, record.region);
            let segments = read_segments(catalog, watermark, record.region, entry_id);
            let start = read_start(watermark, entry_id);
            &&& record.entry_id == acknowledged_id(appended, last_ids, i)
            &&& read_records(segments, stored, start, segments.len() as int).contains(record)
                <==> record.entry_id >= entry_id && (watermark matches Some(obsolete)
                ==> record.entry_id > obsolete)
        }),
{
    let actor = world.actor;
    let history = world.history;
    let appended = history.appended[waiter];
    let record = acknowledged_record(appended, last_ids, i);
    let region = record.region;
    let catalog = actor.catalog;
    let watermark = watermark_of(actor.obsolete, region);
    assert(catalog.valid()) by {
        reveal(ActorModel::valid);
    }
    assert(answered(actor, history, actor.actions[k])) by {
        reveal(accounts);
    }
    if queued(actor, appended, last_ids) {
        lemma_queued_is_not_durable(actor, appended, last_ids, i);
    }
    let seq = choose|seq: u64| #[trigger] in_object(actor, history, seq, appended, last_ids);
    let entries = choose|entries: Seq<Entry>| #[trigger]
        object_from(actor, history, seq, appended, last_ids, entries);
    assert(entry_among(appended, last_ids, i, entries));
    let j = choose|j: int|
        0 <= j < entries.len() && (#[trigger] entries[j]) == with_id(
            appended[i],
            entries[j].entry_id,
        ) && entries[j].entry_id == acknowledged_id(appended, last_ids, i);
    assert(entry_records(entries)[j] == record);
    let header = Header { object_seq: seq, writer_instance: actor.writer_instance };
    let groups = grouped(entry_records(entries));
    let footer = footer_of(groups);
    assert(history.created.contains_key(seq));
    lemma_appended_entry_is_read_back(header, entries, j);
    let at = choose|at: int|
        0 <= at < footer.len() && (#[trigger] footer[at]).region_id.0 == region && segment_in(
            history.created[seq].subrange(
                footer[at].segment_offset as int,
                footer[at].segment_offset + footer[at].segment_len,
            ),
            footer[at],
        ) == Ok::<Seq<RecordModel>, Corruption>(groups[region]) && groups[region].contains(
            entry_records(entries)[j],
        ) && forall|x: RecordModel| #[trigger]
            groups[region].contains(x) ==> entry_records(entries).contains(x) && x.region
                == region;
    let indexed = catalog.objects.contains_key(seq) && catalog.objects[seq] == footer;
    if indexed {
        lemma_footer_is_ordered(entries);
        lemma_entry_of(footer, at);
        assert(catalog.region(region).contains_key(seq));
        assert(catalog.region(region)[seq] == footer[at]);
        assert(stored[seq] == groups[region]);
        assert(stored[seq].contains(record));
    } else {
        let has = lemma_footer_has(entries, j);
        assert(actor.obsolete.contains_key(footer[has].region_id.0));
        assert(watermark is Some && record.entry_id <= watermark->0);
    }
    if watermark != Some(u64::MAX) {
        lemma_read_is_exact(catalog, region, stored, watermark, entry_id);
    }
}

/// A restart restores what is indexed: every indexed object gives the footer that it is indexed
/// with, and the footers that are found this way are indexed as the same objects again. So an
/// acknowledged append that is in an indexed object is in the catalog that a restart recovers.
pub proof fn lemma_restart_restores_the_catalog(world: World)
    requires
        world.valid(),
        forall|seq: u64| #[trigger]
            world.history.created.contains_key(seq) ==> world.history.created[seq].len()
                <= usize::MAX,
    ensures
        forall|seq: u64| #[trigger]
            world.actor.catalog.objects.contains_key(seq) ==> object_footer(
                seq,
                world.history.created[seq],
            ) == Ok::<Seq<FooterEntry>, Corruption>(world.actor.catalog.objects[seq]),
        indexed(
            listing(world.actor.catalog),
            listing(world.actor.catalog).len() as int,
        ) matches Ok(restored) && restored.objects == world.actor.catalog.objects,
{
    reveal(accounts);
    reveal(ActorModel::valid);
    assert forall|seq: u64| #[trigger]
        world.actor.catalog.objects.contains_key(seq) implies object_footer(
        seq,
        world.history.created[seq],
    ) == Ok::<Seq<FooterEntry>, Corruption>(world.actor.catalog.objects[seq]) by {
        assert(world.history.created.contains_key(seq));
    }
    lemma_restart_restores_objects(world.actor.catalog);
}

/// Every segment of an indexed object, whether it was recovered or written since, has an end that
/// can be counted: the location of a segment can be asked for in every state.
pub proof fn lemma_indexed_segments_fit(world: World, region: u64, object_seq: u64)
    requires
        world.valid(),
        forall|seq: u64| #[trigger]
            world.history.created.contains_key(seq) ==> world.history.created[seq].len()
                <= usize::MAX,
    ensures
        segment_fits(world.actor.catalog.region(region), object_seq),
{
    let segments = world.actor.catalog.region(region);
    if segments.contains_key(object_seq) {
        let bytes = world.history.created[object_seq];
        let footer = world.actor.catalog.objects[object_seq];
        lemma_restart_restores_the_catalog(world);
        assert(object_footer(object_seq, bytes) == Ok::<Seq<FooterEntry>, Corruption>(footer));
        let (trailer, range) = located(object_seq, bytes.len() as int, bytes, bytes)->Ok_0;
        lemma_found_segments_fit(
            bytes.subrange(range.start as int, range.end as int),
            trailer,
            range.start as int,
        );
        let i = choose|i: int|
            0 <= i < footer.len() && (#[trigger] footer[i]).region_id.0 == region;
        assert(increasing_by_region(footer)) by {
            reveal(ActorModel::valid);
            assert(world.actor.catalog.objects.contains_key(object_seq));
        }
        lemma_entry_of(footer, i);
    }
}

} // verus!
