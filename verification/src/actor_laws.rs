//! What holds of the actor in every state it can reach.
use vstd::prelude::*;

use crate::actor::{lemma_not_deleting, opened, ActorSettings};
use crate::actor_model::{
    acknowledge, entry_records, in_flight, lemma_start_frame, AckMode, ActionModel, ActorModel,
    CreateState, PendingModel, SealedModel, MAX_IN_FLIGHT_CREATES,
};
use crate::batch::{largest_id, placed, placed_last_ids};
use crate::catalog::{
    conflict_from, conflict_of, entry_of, has_region, increasing_by_region, is_obsolete,
    lemma_by_region_of_increasing, lemma_deletable, lemma_entry_of, lemma_floor_of_ids,
    lemma_insert_keeps_valid, lemma_next_seq_is_fresh, lemma_no_duplicate_in_increasing,
    lemma_no_invalid_range, lemma_remove_keeps_valid, raised_ids, valid_range, CatalogModel,
};
use crate::error::{Error, Failure};
use crate::format::{footer_of, grouped, lemma_grouped, unencodable, FooterEntry};
use crate::id::{
    floor_of, id_at, lemma_floor_is_least, EntryId, RegionId, OBJECT_SEQ_LIMIT, POSITION_LIMIT,
};
use crate::logstore::{count_region, lemma_count_concat, Entry};
use crate::ordmap::{
    is_largest_below, is_smallest_above, largest_below, lemma_lists_keys, ordered_keys,
    smallest_above,
};

verus! {

impl ActorModel {
    /// The state with another next sequence.
    pub open spec fn with_next(self, next_object_seq: Option<u64>) -> ActorModel {
        ActorModel { next_object_seq, ..self }
    }

    /// Whether a sequence is left for a batch that is not durable yet.
    pub open spec fn has_seq(self) -> bool {
        self.sealed.len() > 0 || self.next_object_seq is Some
    }

    /// Every id that is not durable belongs to a sequence above every durable one.
    pub open spec fn above_durable(self) -> bool {
        self.has_seq() ==> {
            &&& forall|seq: u64| #[trigger]
                self.catalog.objects.contains_key(seq) ==> seq < self.lowest_object_seq()
            &&& forall|region: u64| #[trigger]
                self.catalog.max_ids.contains_key(region) ==> floor_of(
                    self.catalog.max_ids[region] as int,
                ) <= self.lowest_object_seq()
        }
    }

    /// The sealed batches have increasing sequences below the next one, and all of them fit an
    /// entry id.
    pub open spec fn in_order(self) -> bool {
        &&& forall|i: int, j: int|
            0 <= i < j < self.sealed.len() ==> (#[trigger] self.sealed[i]).object_seq < (
            #[trigger] self.sealed[j]).object_seq
        &&& forall|i: int|
            0 <= i < self.sealed.len() ==> (#[trigger] self.sealed[i]).object_seq
                < OBJECT_SEQ_LIMIT
        &&& self.next_object_seq matches Some(next) ==> next < OBJECT_SEQ_LIMIT && forall|i: int|
            0 <= i < self.sealed.len() ==> (#[trigger] self.sealed[i]).object_seq < next
    }

    /// The entries of the open batch have the ids of the next sequence, by their positions.
    pub open spec fn numbered(self) -> bool {
        &&& self.next_object_seq is None ==> self.batch.entries.len() == 0 && self.terminal is Some
        &&& forall|k: int|
            0 <= k < self.batch.entries.len() ==> id_fits(
                self.batch.entries,
                self.next_object_seq->0,
                k,
            )
    }

    /// What is promised of the sealed batches: each footer can be indexed, holds ids of its own
    /// sequence only, and holds the entries of its waiters.
    pub open spec fn covers_waiters(self) -> bool {
        &&& forall|i: int|
            0 <= i < self.sealed.len() ==> footer_fits(
                (#[trigger] self.sealed[i]).footer,
                self.sealed[i].object_seq,
            )
        &&& forall|i: int, k: int|
            0 <= i < self.sealed.len() && 0 <= k < self.sealed[i].waiters.len() ==> covered(
                (#[trigger] self.sealed[i].waiters[k]).last_ids,
                self.sealed[i].footer,
            )
        &&& forall|k: int|
            0 <= k < self.pending.len() ==> held(
                (#[trigger] self.pending[k]).last_ids,
                self.batch.entries,
            )
    }

    /// While the enqueued mode runs, nothing is rolled back and the ids to come are above every id
    /// that was handed out.
    pub open spec fn fresh(self) -> bool {
        self.ack_mode == AckMode::Enqueued && !self.stopped && self.terminal is None ==> {
            &&& self.next_object_seq is Some
            &&& forall|i: int|
                0 <= i < self.sealed.len() ==> !((#[trigger] self.sealed[i]).state is Failed)
            &&& forall|region: u64| #[trigger]
                self.issued.contains_key(region) ==> self.issued[region] <= id_at(
                    self.next_object_seq->0 as int,
                    count_region(self.batch.entries, region) as int,
                )
        }
    }

    /// The durable mode holds no append back and drops nothing that it acknowledged, so it has no
    /// error for stop to report.
    pub open spec fn owes_nothing(self) -> bool {
        self.ack_mode == AckMode::Durable ==> self.stalled.len() == 0 && self.stop_error is None
    }

    /// What holds of the actor in every state.
    #[verifier::opaque]
    pub open spec fn valid(self) -> bool {
        &&& self.catalog.valid()
        &&& self.in_order()
        &&& self.above_durable()
        &&& self.numbered()
        &&& self.covers_waiters()
        &&& self.fresh()
        &&& self.owes_nothing()
        &&& in_flight(self.sealed) <= MAX_IN_FLIGHT_CREATES
    }
}

/// The entry at place `k` has the id of its position in the object `object_seq`.
pub open spec fn id_fits(entries: Seq<Entry>, object_seq: u64, k: int) -> bool {
    let region = entries[k].region_id.0;
    &&& count_region(entries.take(k + 1), region) < POSITION_LIMIT
    &&& entries[k].entry_id == id_at(
        object_seq as int,
        count_region(entries.take(k + 1), region) as int,
    )
}

/// Each id is the id of an entry of its region.
pub open spec fn held(last_ids: Map<u64, EntryId>, entries: Seq<Entry>) -> bool {
    forall|region: u64| #[trigger]
        last_ids.contains_key(region) ==> exists|j: int|
            0 <= j < entries.len() && (#[trigger] entries[j]).region_id.0 == region
                && entries[j].entry_id == last_ids[region]
}

/// Each id is at or below the largest id of its region in the footer.
pub open spec fn covered(last_ids: Map<u64, EntryId>, footer: Seq<FooterEntry>) -> bool {
    forall|region: u64| #[trigger]
        last_ids.contains_key(region) ==> has_region(footer, region) && last_ids[region]
            <= entry_of(footer, region).max_entry_id
}

/// The footer lists every region once, with valid ranges of ids of the object.
pub open spec fn footer_fits(footer: Seq<FooterEntry>, object_seq: u64) -> bool {
    &&& footer.len() > 0
    &&& increasing_by_region(footer)
    &&& forall|i: int|
        0 <= i < footer.len() ==> valid_range(#[trigger] footer[i]) && id_at(object_seq as int, 1)
            <= footer[i].min_entry_id && footer[i].max_entry_id < id_at(object_seq + 1, 0)
}

/// The footer that entries are written under lists the regions of the entries, and for each the
/// smallest and the largest id.
pub proof fn lemma_footer_of_entries(entries: Seq<Entry>, object_seq: u64)
    requires
        unencodable(entry_records(entries)) is None,
        forall|k: int| 0 <= k < entries.len() ==> id_fits(entries, object_seq, k),
    ensures
        footer_fits(footer_of(grouped(entry_records(entries))), object_seq),
        forall|j: int|
            0 <= j < entries.len() ==> has_region(
                footer_of(grouped(entry_records(entries))),
                (#[trigger] entries[j]).region_id.0,
            ) && entries[j].entry_id <= entry_of(
                footer_of(grouped(entry_records(entries))),
                entries[j].region_id.0,
            ).max_entry_id,
{
    let records = entry_records(entries);
    let groups = grouped(records);
    let footer = footer_of(groups);
    let keys = ordered_keys(groups);
    lemma_grouped(records);
    lemma_lists_keys(groups);
    assert(records.contains(records[0]));
    assert(groups.contains_key(records[0].region));
    assert(keys.contains(records[0].region));
    assert forall|i: int, j: int| 0 <= i < j < footer.len() implies footer[i].region_id.0
        < footer[j].region_id.0 by {
        assert(keys[i] < keys[j]);
    }
    assert forall|i: int| 0 <= i < footer.len() implies valid_range(#[trigger] footer[i]) && id_at(
        object_seq as int,
        1,
    ) <= footer[i].min_entry_id && footer[i].max_entry_id < id_at(object_seq + 1, 0) by {
        let region = keys[i];
        assert(keys.contains(region));
        assert(groups.contains_key(region));
        let group = groups[region];
        let first = group[0];
        let last = group[group.len() - 1];
        assert(group.contains(first));
        assert(group.contains(last));
        assert(first.region == region);
        assert(last.region == region);
        assert(records.contains(first));
        assert(records.contains(last));
        let a = records.index_of(first);
        let b = records.index_of(last);
        assert(records[a] == first);
        assert(records[b] == last);
        assert(id_fits(entries, object_seq, a));
        assert(id_fits(entries, object_seq, b));
        assert(entries.take(a + 1).drop_last() =~= entries.take(a));
        assert(entries.take(b + 1).drop_last() =~= entries.take(b));
        if group.len() > 1 {
            assert(group[0].entry_id < group[group.len() - 1].entry_id);
        }
    }
    assert forall|j: int| 0 <= j < entries.len() implies has_region(
        footer,
        (#[trigger] entries[j]).region_id.0,
    ) && entries[j].entry_id <= entry_of(footer, entries[j].region_id.0).max_entry_id by {
        let record = records[j];
        assert(records.contains(record));
        let region = record.region;
        let group = groups[region];
        assert(group.contains(record));
        assert(keys.contains(region));
        let i = keys.index_of(region);
        assert(keys[i] == region);
        assert(footer[i].region_id.0 == region);
        lemma_entry_of(footer, i);
        let k = group.index_of(record);
        assert(group[k] == record);
        if k < group.len() - 1 {
            assert(group[k].entry_id < group[group.len() - 1].entry_id);
        }
    }
}

proof fn lemma_no_conflict_above(
    catalog: CatalogModel,
    object_seq: u64,
    footer: Seq<FooterEntry>,
    i: int,
)
    requires
        catalog.valid(),
        0 <= i,
        footer_fits(footer, object_seq),
        forall|seq: u64| #[trigger] catalog.objects.contains_key(seq) ==> seq < object_seq,
        forall|region: u64| #[trigger]
            catalog.max_ids.contains_key(region) ==> floor_of(catalog.max_ids[region] as int)
                <= object_seq,
    ensures
        conflict_from(catalog.objects, object_seq, footer, i) is None,
    decreases footer.len() - i,
{
    reveal(ActorModel::valid);
    if i < footer.len() {
        let entry = footer[i];
        let region = entry.region_id.0;
        let model = catalog.region(region);
        assert(conflict_of(catalog.objects, object_seq, entry) is None) by {
            if let Some(below) = largest_below(model, object_seq) {
                let chosen = choose|b: u64| is_largest_below(model, object_seq, b);
                assert(is_largest_below(model, object_seq, chosen));
                assert(catalog.region(region).contains_key(below));
                let id = catalog.max_ids[region] as int;
                lemma_floor_is_least(id);
                assert(id < id_at(floor_of(id), 1));
                assert(id_at(floor_of(id), 1) <= id_at(object_seq as int, 1));
            }
            if let Some(above) = smallest_above(model, object_seq) {
                let chosen = choose|b: u64| is_smallest_above(model, object_seq, b);
                assert(is_smallest_above(model, object_seq, chosen));
                assert(catalog.objects.contains_key(above));
            }
        }
        lemma_no_conflict_above(catalog, object_seq, footer, i + 1);
    }
}

/// The catalog takes the object at the front of the pipeline: an object that the actor created is
/// never rejected.
pub proof fn lemma_front_is_accepted(actor: ActorModel)
    requires
        actor.valid(),
        actor.sealed.len() > 0,
    ensures
        actor.indexes_front(),
{
    reveal(ActorModel::valid);
    let front = actor.sealed[0];
    assert(footer_fits(front.footer, front.object_seq));
    lemma_by_region_of_increasing(front.footer);
    lemma_no_duplicate_in_increasing(front.object_seq, front.footer, 0);
    lemma_no_invalid_range(front.object_seq, front.footer, 0);
    lemma_no_conflict_above(actor.catalog, front.object_seq, front.footer, 0);
}

/// Every region of `before` is in `after` with an id that is not smaller.
pub open spec fn ids_grow(before: Map<u64, EntryId>, after: Map<u64, EntryId>) -> bool {
    forall|region: u64| #[trigger]
        before.contains_key(region) ==> after.contains_key(region) && before[region]
            <= after[region]
}

/// Each id is the id of a durable entry or smaller.
pub open spec fn durable(last_ids: Map<u64, EntryId>, max_ids: Map<u64, EntryId>) -> bool {
    forall|region: u64| #[trigger]
        last_ids.contains_key(region) ==> max_ids.contains_key(region) && last_ids[region]
            <= max_ids[region]
}

/// An append that is acknowledged in the durable mode has all its entries durable.
pub open spec fn honest(actor: ActorModel, action: ActionModel) -> bool {
    actor.ack_mode == AckMode::Durable ==> (action matches ActionModel::AnswerAppend {
        result: Ok(last_ids),
        ..
    } ==> durable(last_ids, actor.catalog.max_ids))
}

/// What the state `after` owes to an earlier state `before`: it is valid and keeps what was
/// promised.
pub open spec fn follows(before: ActorModel, after: ActorModel) -> bool {
    after.valid() && keeps(before, after)
}

/// The sequence that ids are assigned from does not go back; the durable, the issued and the
/// obsolete ids do not go down; the terminal error stays; and whatever was asked for meanwhile is
/// honest.
#[verifier::opaque]
pub open spec fn keeps(before: ActorModel, after: ActorModel) -> bool {
    &&& after.ack_mode == before.ack_mode
    &&& after.has_seq() ==> before.has_seq() && before.lowest_object_seq()
        <= after.lowest_object_seq()
    &&& ids_grow(before.catalog.max_ids, after.catalog.max_ids)
    &&& ids_grow(before.issued, after.issued)
    &&& ids_grow(before.obsolete, after.obsolete)
    &&& before.terminal is Some ==> after.terminal == before.terminal
    &&& before.stopped ==> after.stopped
    &&& before.actions.len() <= after.actions.len()
    &&& forall|i: int|
        0 <= i < before.actions.len() ==> #[trigger] after.actions[i] == before.actions[i]
    &&& forall|i: int|
        before.actions.len() <= i < after.actions.len() ==> honest(
            after,
            #[trigger] after.actions[i],
        )
}

/// A valid state follows itself.
pub proof fn lemma_follows_self(actor: ActorModel)
    requires
        actor.valid(),
    ensures
        follows(actor, actor),
{
    reveal(ActorModel::valid);
    reveal(keeps);
}

/// What follows a state that follows an earlier one follows the earlier one.
pub proof fn lemma_follows_trans(a: ActorModel, b: ActorModel, c: ActorModel)
    requires
        follows(a, b),
        follows(b, c),
    ensures
        follows(a, c),
{
    reveal(ActorModel::valid);
    reveal(keeps);
    assert forall|i: int| a.actions.len() <= i < c.actions.len() implies honest(
        c,
        #[trigger] c.actions[i],
    ) by {
        if i < b.actions.len() {
            assert(c.actions[i] == b.actions[i]);
            assert(honest(b, b.actions[i]));
        }
    }
    assert forall|i: int| 0 <= i < a.actions.len() implies #[trigger] c.actions[i]
        == a.actions[i] by {
        assert(c.actions[i] == b.actions[i]);
    }
}

/// The batches of both pipelines have the same sequences, footers and waiters.
pub open spec fn same_batches(a: Seq<SealedModel>, b: Seq<SealedModel>) -> bool {
    &&& a.len() == b.len()
    &&& forall|i: int|
        0 <= i < a.len() ==> (#[trigger] a[i]).object_seq == b[i].object_seq && a[i].footer
            == b[i].footer && a[i].waiters == b[i].waiters
}

/// A state that differs in the states of its batches, in who else waits or in what is to be done,
/// follows when what is to be done is honest.
proof fn lemma_same_pipeline(before: ActorModel, after: ActorModel)
    requires
        before.valid(),
        same_batches(before.sealed, after.sealed),
        in_flight(after.sealed) <= in_flight(before.sealed) || in_flight(after.sealed)
            <= MAX_IN_FLIGHT_CREATES,
        after.catalog == before.catalog,
        after.next_object_seq == before.next_object_seq,
        after.batch.entries == before.batch.entries,
        after.pending == before.pending || after.pending.len() == 0,
        after.ack_mode == before.ack_mode,
        after.issued == before.issued,
        before.fresh() ==> after.fresh(),
        before.owes_nothing() ==> after.owes_nothing(),
        ids_grow(before.obsolete, after.obsolete),
        before.terminal is Some ==> after.terminal == before.terminal,
        before.stopped ==> after.stopped,
        before.actions.len() <= after.actions.len(),
        forall|i: int|
            0 <= i < before.actions.len() ==> #[trigger] after.actions[i] == before.actions[i],
        forall|i: int|
            before.actions.len() <= i < after.actions.len() ==> honest(
                after,
                #[trigger] after.actions[i],
            ),
    ensures
        follows(before, after),
{
    reveal(ActorModel::valid);
    reveal(keeps);
    assert forall|i: int| 0 <= i < after.sealed.len() implies footer_fits(
        (#[trigger] after.sealed[i]).footer,
        after.sealed[i].object_seq,
    ) by {
        assert(before.sealed[i].object_seq == after.sealed[i].object_seq);
    }
    assert forall|i: int, k: int|
        0 <= i < after.sealed.len() && 0 <= k < after.sealed[i].waiters.len() implies covered(
        (#[trigger] after.sealed[i].waiters[k]).last_ids,
        after.sealed[i].footer,
    ) by {
        assert(before.sealed[i].object_seq == after.sealed[i].object_seq);
        assert(covered(before.sealed[i].waiters[k].last_ids, before.sealed[i].footer));
    }
    assert forall|i: int, j: int| 0 <= i < j < after.sealed.len() implies (
    #[trigger] after.sealed[i]).object_seq < (#[trigger] after.sealed[j]).object_seq by {
        assert(before.sealed[i].object_seq < before.sealed[j].object_seq);
    }
    assert forall|i: int| 0 <= i < after.sealed.len() implies (
    #[trigger] after.sealed[i]).object_seq < OBJECT_SEQ_LIMIT by {
        assert(before.sealed[i].object_seq < OBJECT_SEQ_LIMIT);
    }
    if after.next_object_seq is Some {
        assert forall|i: int| 0 <= i < after.sealed.len() implies (
        #[trigger] after.sealed[i]).object_seq < after.next_object_seq->0 by {
            assert(before.sealed[i].object_seq < before.next_object_seq->0);
        }
    }
    if after.sealed.len() > 0 {
        assert(before.sealed[0].object_seq == after.sealed[0].object_seq);
    }
    assert forall|k: int| 0 <= k < after.batch.entries.len() implies id_fits(
        after.batch.entries,
        after.next_object_seq->0,
        k,
    ) by {
        assert(id_fits(before.batch.entries, before.next_object_seq->0, k));
    }
}

pub(crate) proof fn lemma_in_flight_update(sealed: Seq<SealedModel>, at: int, batch: SealedModel)
    requires
        0 <= at < sealed.len(),
    ensures
        in_flight(sealed.update(at, batch)) == in_flight(sealed) - (if sealed[at].state
            == CreateState::InFlight {
            1int
        } else {
            0
        }) + (if batch.state == CreateState::InFlight {
            1int
        } else {
            0
        }),
    decreases sealed.len(),
{
    let after = sealed.update(at, batch);
    if at == sealed.len() - 1 {
        assert(after.drop_last() =~= sealed.drop_last());
    } else {
        lemma_in_flight_update(sealed.drop_last(), at, batch);
        assert(after.drop_last() =~= sealed.drop_last().update(at, batch));
    }
}

proof fn lemma_in_flight_parts(sealed: Seq<SealedModel>, at: int)
    requires
        0 <= at <= sealed.len(),
    ensures
        in_flight(sealed.take(at)) + in_flight(sealed.skip(at)) == in_flight(sealed),
    decreases sealed.len(),
{
    if at == sealed.len() {
        assert(sealed.take(at) =~= sealed);
        assert(sealed.skip(at) =~= Seq::empty());
    } else {
        let rest = sealed.drop_last();
        lemma_in_flight_parts(rest, at);
        assert(rest.take(at) =~= sealed.take(at));
        assert(sealed.skip(at).drop_last() =~= rest.skip(at));
    }
}

/// Starting creates keeps the promises.
proof fn lemma_start_from_follows(actor: ActorModel, i: int, running: nat)
    requires
        actor.valid(),
        running == in_flight(actor.sealed),
    ensures
        follows(actor, actor.start_from(i, running)),
        same_batches(actor.sealed, actor.start_from(i, running).sealed),
    decreases actor.sealed.len() - i,
{
    reveal(ActorModel::valid);
    reveal(keeps);
    if i < 0 || i >= actor.sealed.len() || running >= MAX_IN_FLIGHT_CREATES {
        lemma_follows_self(actor);
    } else if actor.sealed[i].state != CreateState::Pending {
        lemma_start_from_follows(actor, i + 1, running);
    } else {
        let batch = actor.sealed[i];
        let started = SealedModel {
            state: CreateState::InFlight,
            attempts: if batch.attempts == u32::MAX {
                u32::MAX
            } else {
                (batch.attempts + 1) as u32
            },
            ..batch
        };
        let next = ActorModel {
            sealed: actor.sealed.update(i, started),
            creates: actor.creates.push(batch.object_seq),
            ..actor
        }.act(ActionModel::Create { object_seq: batch.object_seq, delayed: batch.attempts != 0 });
        lemma_in_flight_update(actor.sealed, i, started);
        assert(same_batches(actor.sealed, next.sealed));
        lemma_same_pipeline(actor, next);
        lemma_start_from_follows(next, i + 1, running + 1);
        let end = next.start_from(i + 1, running + 1);
        lemma_follows_trans(actor, next, end);
        assert forall|k: int| 0 <= k < actor.sealed.len() implies (
        #[trigger] actor.sealed[k]).object_seq == end.sealed[k].object_seq
            && actor.sealed[k].footer == end.sealed[k].footer && actor.sealed[k].waiters
            == end.sealed[k].waiters by {
            assert(next.sealed[k].object_seq == end.sealed[k].object_seq);
        }
    }
}

pub(crate) proof fn lemma_start_creates_follows(actor: ActorModel)
    requires
        actor.valid(),
    ensures
        follows(actor, actor.start_creates()),
        same_batches(actor.sealed, actor.start_creates().sealed),
{
    reveal(ActorModel::start_creates);
    reveal(ActorModel::valid);
    reveal(keeps);
    if actor.draining || (actor.stopped && actor.ack_mode == AckMode::Durable) {
        lemma_follows_self(actor);
    } else {
        lemma_start_from_follows(actor, 0, in_flight(actor.sealed));
    }
}

/// The answers that fail sealed batches acknowledge no append.
pub proof fn lemma_fail_sealed(sealed: Seq<SealedModel>, failure: Failure)
    ensures
        forall|i: int|
            0 <= i < crate::actor_model::fail_sealed(sealed, failure).len() ==> !((
            #[trigger] crate::actor_model::fail_sealed(
                sealed,
                failure,
            )[i]) matches ActionModel::AnswerAppend { result: Ok(_), .. }),
    decreases sealed.len(),
{
    if sealed.len() > 0 {
        lemma_fail_sealed(sealed.drop_last(), failure);
    }
}

proof fn lemma_fail_unacknowledged_follows(actor: ActorModel, failure: Failure)
    requires
        actor.valid(),
    ensures
        follows(actor, actor.fail_unacknowledged(failure)),
{
    reveal(ActorModel::valid);
    reveal(keeps);
    let after = actor.fail_unacknowledged(failure);
    assert(same_batches(actor.sealed, after.sealed));
    assert forall|i: int| 0 <= i < actor.actions.len() implies #[trigger] after.actions[i]
        == actor.actions[i] by {}
    assert forall|i: int| actor.actions.len() <= i < after.actions.len() implies honest(
        after,
        #[trigger] after.actions[i],
    ) by {}
    lemma_same_pipeline(actor, after);
}

/// Dropping the backlog keeps the promises when the next sequence is not below the lowest one.
proof fn lemma_drop_backlog_follows(
    actor: ActorModel,
    next_object_seq: Option<u64>,
    unresolved: Option<u64>,
    failure: Failure,
)
    requires
        actor.valid(),
        next_object_seq matches Some(next) ==> next < OBJECT_SEQ_LIMIT && actor.has_seq()
            && actor.lowest_object_seq() <= next,
        next_object_seq is None ==> actor.terminal is Some,
        actor.ack_mode == AckMode::Durable || actor.stopped || actor.terminal is Some,
    ensures
        follows(
            actor,
            ActorModel {
                next_object_seq,
                unresolved_object_seq: unresolved,
                ..actor
            }.drop_backlog(failure),
        ),
{
    reveal(ActorModel::valid);
    reveal(keeps);
    let moved = ActorModel { next_object_seq, unresolved_object_seq: unresolved, ..actor };
    let dropped = ActorModel {
        draining: false,
        sealed: Seq::empty(),
        batch: moved.batch.cleared(),
        ..moved.act_all(crate::actor_model::fail_sealed(moved.sealed, failure))
    };
    let after = moved.drop_backlog(failure);
    lemma_fail_sealed(moved.sealed, failure);
    assert forall|i: int| 0 <= i < actor.actions.len() implies #[trigger] after.actions[i]
        == actor.actions[i] by {}
    let sealed_answers = crate::actor_model::fail_sealed(moved.sealed, failure);
    assert forall|i: int| actor.actions.len() <= i < after.actions.len() implies honest(
        after,
        #[trigger] after.actions[i],
    ) by {
        if i < dropped.actions.len() {
            assert(after.actions[i] == dropped.actions[i]);
            assert(dropped.actions[i] == sealed_answers[i - actor.actions.len()]);
        }
    }
    assert(in_flight(after.sealed) == 0);
    assert(after.above_durable());
}

/// A terminal error keeps the promises, also when no sequence is left.
proof fn lemma_poison_at_follows(actor: ActorModel, next_object_seq: Option<u64>, error: Error)
    requires
        actor.valid(),
        next_object_seq matches Some(next) ==> next < OBJECT_SEQ_LIMIT && actor.has_seq()
            && actor.lowest_object_seq() <= next,
    ensures
        follows(actor, actor.with_next(next_object_seq).poison(error)),
        actor.with_next(next_object_seq).poison(error).terminal is Some,
{
    reveal(ActorModel::poison);
    reveal(ActorModel::valid);
    reveal(keeps);
    let recorded = actor.set_terminal(error);
    let first = recorded.terminal->0;
    assert(same_batches(actor.sealed, recorded.sealed));
    lemma_same_pipeline(actor, recorded);
    let failure = recorded.failure(first);
    lemma_drop_backlog_follows(
        recorded,
        next_object_seq,
        recorded.unresolved_object_seq,
        failure,
    );
    let moved = ActorModel { next_object_seq, ..actor };
    let dropped = moved.set_terminal(error).drop_backlog(failure);
    assert(moved.set_terminal(error) == ActorModel {
        next_object_seq,
        unresolved_object_seq: recorded.unresolved_object_seq,
        ..recorded
    });
    lemma_follows_trans(actor, recorded, dropped);
    let after = dropped.lose_backlog(first);
    assert(same_batches(dropped.sealed, after.sealed));
    lemma_same_pipeline(dropped, after);
    lemma_follows_trans(actor, dropped, after);
}

proof fn lemma_poison_follows(actor: ActorModel, error: Error)
    requires
        actor.valid(),
    ensures
        follows(actor, actor.poison(error)),
        actor.poison(error).terminal is Some,
{
    assert(actor.next_object_seq matches Some(next) ==> next < OBJECT_SEQ_LIMIT
        && actor.lowest_object_seq() <= next) by {
        reveal(ActorModel::valid);
        if actor.next_object_seq is Some && actor.sealed.len() > 0 {
            assert(actor.sealed[0].object_seq < actor.next_object_seq->0);
        }
    }
    lemma_poison_at_follows(actor, actor.next_object_seq, error);
    assert(actor.with_next(actor.next_object_seq) == actor);
}

proof fn lemma_roll_back_follows(actor: ActorModel, error: Error)
    requires
        actor.valid(),
        actor.sealed.len() > 0,
        actor.sealed[0].state is Failed,
    ensures
        follows(actor, actor.roll_back(actor.sealed[0].object_seq, error)),
{
    reveal(ActorModel::roll_back);
    reveal(ActorModel::valid);
    reveal(keeps);
    let object_seq = actor.sealed[0].object_seq;
    let unresolved = crate::actor_model::larger(
        actor.unresolved_object_seq,
        crate::actor_model::largest_failed(actor.sealed),
    );
    let failure = actor.failure(error);
    lemma_drop_backlog_follows(actor, Some(object_seq), unresolved, failure);
    let dropped = ActorModel {
        next_object_seq: Some(object_seq),
        unresolved_object_seq: unresolved,
        ..actor
    }.drop_backlog(failure);
    let after = dropped.lose_backlog(error);
    assert(same_batches(dropped.sealed, after.sealed));
    lemma_same_pipeline(dropped, after);
    lemma_follows_trans(actor, dropped, after);
}

pub(crate) proof fn lemma_flush_follows(actor: ActorModel)
    requires
        actor.valid(),
    ensures
        follows(actor, actor.flush()),
        actor.flush().batch.entries.len() == 0 || actor.flush().batch == actor.batch,
        actor.seals() ==> actor.flush().batch.entries.len() == 0,
{
    reveal(ActorModel::flush);
    reveal(ActorModel::start_creates);
    reveal(ActorModel::poison);
    reveal(ActorModel::valid);
    reveal(keeps);
    if actor.batch.entries.len() == 0 {
        lemma_follows_self(actor);
    } else if actor.terminal is Some {
        lemma_fail_unacknowledged_follows(actor, Failure::Shared(actor.terminal->0));
    } else if actor.next_object_seq is None {
        lemma_poison_follows(actor, crate::actor_model::exhausted());
    } else if let Some(reason) = unencodable(entry_records(actor.batch.entries)) {
        // The waiters of the entries fail together with them.
        let error = Error::UnencodableWalObject { reason };
        let emptied = ActorModel { batch: actor.batch.cleared(), ..actor };
        lemma_poison_follows(actor, error);
        assert(emptied.poison(error) == actor.poison(error)) by {
            assert(emptied.batch.cleared() == actor.batch.cleared());
        }
    } else {
        let object_seq = actor.next_object_seq->0;
        let noted = actor.sealed_noted();
        let batch = actor.sealed_batch(object_seq);
        lemma_footer_of_entries(actor.batch.entries, object_seq);
        assert(in_flight(noted.sealed) == in_flight(actor.sealed)) by {
            assert(noted.sealed.drop_last() =~= actor.sealed);
        }
        assert forall|k: int| 0 <= k < actor.pending.len() implies covered(
            (#[trigger] actor.pending[k]).last_ids,
            batch.footer,
        ) by {
            let last_ids = actor.pending[k].last_ids;
            assert(held(last_ids, actor.batch.entries));
            assert forall|region: u64| #[trigger] last_ids.contains_key(region) implies has_region(
                batch.footer,
                region,
            ) && last_ids[region] <= entry_of(batch.footer, region).max_entry_id by {
                let j = choose|j: int|
                    0 <= j < actor.batch.entries.len() && (
                    #[trigger] actor.batch.entries[j]).region_id.0 == region
                        && actor.batch.entries[j].entry_id == last_ids[region];
                assert(actor.batch.entries[j].region_id.0 == region);
            }
        }
        assert forall|i: int, k: int|
            0 <= i < noted.sealed.len() && 0 <= k < noted.sealed[i].waiters.len() implies covered(
            (#[trigger] noted.sealed[i].waiters[k]).last_ids,
            noted.sealed[i].footer,
        ) by {
            if i < actor.sealed.len() {
                assert(covered(actor.sealed[i].waiters[k].last_ids, actor.sealed[i].footer));
            } else {
                assert(noted.sealed[i] == batch);
                assert(covered(actor.pending[k].last_ids, batch.footer));
            }
        }
        assert(noted.in_order());
        assert(noted.lowest_object_seq() == actor.lowest_object_seq());
        assert(noted.above_durable());
        assert(noted.covers_waiters());
        assert(noted.fresh()) by {
            assert forall|region: u64| #[trigger]
                actor.issued.contains_key(region) && actor.fresh() && actor.ack_mode
                    == AckMode::Enqueued && !actor.stopped implies actor.issued[region] <= id_at(
                object_seq + 1,
                0,
            ) by {
                if count_region(actor.batch.entries, region) > 0 {
                    let k = lemma_last_of_region(actor.batch.entries, region);
                    assert(id_fits(actor.batch.entries, object_seq, k));
                }
            }
        }
        assert(follows(actor, noted));
        lemma_start_creates_follows(noted);
        lemma_follows_trans(actor, noted, noted.start_creates());
        if !(noted.draining || (noted.stopped && noted.ack_mode == AckMode::Durable)) {
            lemma_start_frame(noted, 0, in_flight(noted.sealed));
        }
    }
}

/// A region of which there are entries has a last one.
pub proof fn lemma_last_of_region(entries: Seq<Entry>, region: u64) -> (at: int)
    requires
        count_region(entries, region) > 0,
    ensures
        0 <= at < entries.len(),
        entries[at].region_id.0 == region,
        count_region(entries.take(at + 1), region) == count_region(entries, region),
    decreases entries.len(),
{
    if entries.last().region_id.0 == region {
        assert(entries.take(entries.len() as int) =~= entries);
        entries.len() - 1
    } else {
        let rest = entries.drop_last();
        let at = lemma_last_of_region(rest, region);
        assert(rest.take(at + 1) =~= entries.take(at + 1));
        at
    }
}

/// The entries of an append get the ids of the next sequence, behind those of the open batch.
proof fn lemma_placed_fit(object_seq: u64, admitted: Seq<Entry>, entries: Seq<Entry>)
    requires
        object_seq < OBJECT_SEQ_LIMIT,
        forall|k: int| 0 <= k < admitted.len() ==> id_fits(admitted, object_seq, k),
        crate::batch::exhausted_from(admitted, entries, 0) is None,
    ensures
        forall|k: int|
            0 <= k < (admitted + placed(object_seq, admitted, entries)).len() ==> id_fits(
                admitted + placed(object_seq, admitted, entries),
                object_seq,
                k,
            ),
        held(
            placed_last_ids(object_seq, admitted, entries),
            admitted + placed(object_seq, admitted, entries),
        ),
{
    let new = placed(object_seq, admitted, entries);
    let all = admitted + new;
    crate::batch::lemma_positions_left(admitted, entries, 0);
    assert forall|k: int| 0 <= k < all.len() implies id_fits(all, object_seq, k) by {
        if k < admitted.len() {
            assert(all.take(k + 1) =~= admitted.take(k + 1));
            assert(id_fits(admitted, object_seq, k));
        } else {
            let j = k - admitted.len();
            let region = entries[j].region_id.0;
            let part = placed(object_seq, admitted, entries.take(j + 1));
            assert(new.take(j + 1) =~= part) by {
                assert forall|m: int| 0 <= m < j + 1 implies new.take(j + 1)[m] == part[m] by {
                    assert(entries.take(j + 1).take(m + 1) =~= entries.take(m + 1));
                }
            }
            assert(all.take(k + 1) =~= admitted + part);
            lemma_count_concat(admitted, part, region);
            crate::batch::lemma_placed_counts(
                object_seq,
                admitted,
                entries.take(j + 1),
                region,
            );
            assert(count_region(admitted, entries[j].region_id.0) + count_region(
                entries.take(j + 1),
                region,
            ) < POSITION_LIMIT);
            assert(all[k] == new[j]);
        }
    }
    let last_ids = placed_last_ids(object_seq, admitted, entries);
    assert forall|region: u64| #[trigger] last_ids.contains_key(region) implies exists|j: int|
        0 <= j < all.len() && (#[trigger] all[j]).region_id.0 == region && all[j].entry_id
            == last_ids[region] by {
        let at = lemma_last_of_region(entries, region);
        let j = admitted.len() + at;
        assert(all[j] == new[at]);
        assert(all[j].region_id.0 == region);
        assert(all[j].entry_id == last_ids[region]);
    }
}

/// An id that is held stays held when entries are added.
proof fn lemma_held_grows(last_ids: Map<u64, EntryId>, entries: Seq<Entry>, more: Seq<Entry>)
    requires
        held(last_ids, entries),
    ensures
        held(last_ids, entries + more),
{
    let all = entries + more;
    assert forall|region: u64| #[trigger] last_ids.contains_key(region) implies exists|j: int|
        0 <= j < all.len() && (#[trigger] all[j]).region_id.0 == region && all[j].entry_id
            == last_ids[region] by {
        let j = choose|j: int|
            0 <= j < entries.len() && (#[trigger] entries[j]).region_id.0 == region
                && entries[j].entry_id == last_ids[region];
        assert(all[j] == entries[j]);
    }
}

pub(crate) proof fn lemma_enter_follows(
    actor: ActorModel,
    entries: Seq<Entry>,
    waiter: u64,
    now: u64,
)
    requires
        actor.valid(),
        actor.next_object_seq is Some,
        actor.batch.exhausted(entries) is None,
    ensures
        follows(actor, actor.enter(actor.next_object_seq->0, entries, waiter, now)),
{
    reveal(ActorModel::enter);
    reveal(ActorModel::valid);
    reveal(keeps);
    let object_seq = actor.next_object_seq->0;
    let last_ids = placed_last_ids(object_seq, actor.batch.entries, entries);
    let new = placed(object_seq, actor.batch.entries, entries);
    let entered = ActorModel {
        batch: actor.batch.with(object_seq, entries, now),
        issued: crate::actor_model::raise_issued(actor.issued, last_ids),
        ..actor
    };
    let noted = match actor.ack_mode {
        AckMode::Durable => ActorModel {
            pending: actor.pending.push(PendingModel { waiter, last_ids }),
            ..entered
        },
        AckMode::Enqueued => entered.answer_append(waiter, Ok(last_ids)),
    };
    lemma_placed_fit(object_seq, actor.batch.entries, entries);
    assert(noted.batch.entries == actor.batch.entries + new);
    assert forall|k: int| 0 <= k < noted.pending.len() implies held(
        (#[trigger] noted.pending[k]).last_ids,
        noted.batch.entries,
    ) by {
        if k < actor.pending.len() {
            assert(noted.pending[k] == actor.pending[k]);
            lemma_held_grows(actor.pending[k].last_ids, actor.batch.entries, new);
        }
    }
    assert(noted.numbered());
    assert(noted.in_order());
    assert(noted.above_durable());
    assert(noted.covers_waiters());
    assert(ids_grow(actor.issued, noted.issued));
    assert(noted.fresh()) by {
        assert forall|region: u64| #[trigger]
            noted.issued.contains_key(region) && actor.ack_mode == AckMode::Enqueued
                && !actor.stopped && actor.terminal is None implies noted.issued[region] <= id_at(
            object_seq as int,
            count_region(noted.batch.entries, region) as int,
        ) by {
            lemma_count_concat(actor.batch.entries, new, region);
            crate::batch::lemma_placed_counts(
                object_seq,
                actor.batch.entries,
                entries,
                region,
            );
            if !actor.issued.contains_key(region) {
                assert(last_ids.contains_key(region));
            }
            if last_ids.contains_key(region) {
                let at = lemma_last_of_region(entries, region);
                crate::batch::lemma_positions_left(actor.batch.entries, entries, 0);
                assert(count_region(actor.batch.entries, entries[at].region_id.0)
                    + count_region(entries.take(at + 1), region) < POSITION_LIMIT);
            }
        }
    }
    assert(follows(actor, noted));
    if noted.batch.full() {
        lemma_flush_follows(noted);
        lemma_follows_trans(actor, noted, noted.flush());
    }
}

proof fn lemma_answer_follows(actor: ActorModel, action: ActionModel)
    requires
        actor.valid(),
        !(action matches ActionModel::AnswerAppend { result: Ok(_), .. }),
    ensures
        follows(actor, actor.act(action)),
{
    reveal(ActorModel::valid);
    reveal(keeps);
    let after = actor.act(action);
    assert(same_batches(actor.sealed, after.sealed));
    lemma_same_pipeline(actor, after);
}

pub(crate) proof fn lemma_take_in_follows(
    actor: ActorModel,
    entries: Seq<Entry>,
    waiter: u64,
    now: u64,
)
    requires
        actor.valid(),
    ensures
        follows(actor, actor.take_in(entries, waiter, now)),
{
    reveal(ActorModel::take_in);
    let seals_first = actor.batch.entries.len() > 0 && actor.batch.exhausted(entries) is Some;
    let open = if seals_first {
        actor.flush()
    } else {
        actor
    };
    if seals_first {
        lemma_flush_follows(actor);
    } else {
        lemma_follows_self(actor);
    }
    let after = actor.take_in(entries, waiter, now);
    if seals_first && open.terminal is Some {
        lemma_answer_follows(
            open,
            ActionModel::AnswerAppend {
                waiter,
                result: Err(Failure::Shared(open.terminal->0)),
            },
        );
    } else if open.next_object_seq is None {
        let poisoned = open.poison(crate::actor_model::exhausted());
        lemma_poison_follows(open, crate::actor_model::exhausted());
        lemma_answer_follows(
            poisoned,
            ActionModel::AnswerAppend {
                waiter,
                result: Err(Failure::Shared(poisoned.terminal->0)),
            },
        );
        lemma_follows_trans(open, poisoned, after);
    } else if let Some(region_id) = open.batch.exhausted(entries) {
        lemma_answer_follows(
            open,
            ActionModel::AnswerAppend {
                waiter,
                result: Err(Failure::Own(Error::WalEntryPositionExhausted { region_id })),
            },
        );
    } else {
        lemma_enter_follows(open, entries, waiter, now);
    }
    lemma_follows_trans(actor, open, after);
}

proof fn lemma_ensure_create_follows(actor: ActorModel)
    requires
        actor.valid(),
    ensures
        follows(actor, actor.ensure_create_in_flight()),
{
    lemma_flush_follows(actor);
    lemma_follows_self(actor);
}

/// An append keeps the promises of the actor.
pub proof fn lemma_append_follows(actor: ActorModel, entries: Seq<Entry>, waiter: u64, now: u64)
    requires
        actor.valid(),
    ensures
        follows(actor, actor.append(entries, waiter, now)),
{
    if actor.stopped {
        lemma_answer_follows(
            actor,
            ActionModel::AnswerAppend {
                waiter,
                result: Err(Failure::Own(Error::ObjectStoreWalStopped)),
            },
        );
    } else if actor.terminal is Some {
        lemma_answer_follows(
            actor,
            ActionModel::AnswerAppend {
                waiter,
                result: Err(Failure::Shared(actor.terminal->0)),
            },
        );
    } else if actor.ack_mode == AckMode::Enqueued && actor.at_threshold(now) {
        let held_back = ActorModel {
            stalled: actor.stalled.push(crate::actor_model::StalledModel { entries, waiter }),
            ..actor
        };
        assert(same_batches(actor.sealed, held_back.sealed));
        lemma_same_pipeline(actor, held_back);
        lemma_ensure_create_follows(held_back);
        lemma_follows_trans(actor, held_back, held_back.ensure_create_in_flight());
    } else {
        lemma_take_in_follows(actor, entries, waiter, now);
    }
}

/// Taking the first of the stalled appends keeps the promises.
pub(crate) proof fn lemma_popped_follows(actor: ActorModel)
    requires
        actor.valid(),
        actor.stalled.len() > 0,
    ensures
        follows(actor, ActorModel { stalled: actor.stalled.drop_first(), ..actor }),
{
    reveal(ActorModel::valid);
    let popped = ActorModel { stalled: actor.stalled.drop_first(), ..actor };
    assert(same_batches(actor.sealed, popped.sealed));
    lemma_same_pipeline(actor, popped);
}

pub(crate) proof fn lemma_release_follows(actor: ActorModel, now: u64)
    requires
        actor.valid(),
    ensures
        follows(actor, actor.release_stalled(now)),
    decreases actor.stalled.len(),
{
    if actor.stalled.len() == 0 {
        lemma_follows_self(actor);
    } else if actor.stopped {
        let after = actor.release_stalled(now);
        assert(same_batches(actor.sealed, after.sealed));
        assert forall|i: int| 0 <= i < actor.actions.len() implies #[trigger] after.actions[i]
            == actor.actions[i] by {}
        lemma_same_pipeline(actor, after);
    } else if actor.at_threshold(now) {
        lemma_ensure_create_follows(actor);
    } else {
        let first = actor.stalled[0];
        let popped = ActorModel { stalled: actor.stalled.drop_first(), ..actor };
        let next = popped.take_in(first.entries, first.waiter, now);
        lemma_popped_follows(actor);
        lemma_take_in_follows(popped, first.entries, first.waiter, now);
        lemma_follows_trans(actor, popped, next);
        if next.stalled.len() < actor.stalled.len() {
            lemma_release_follows(next, now);
            lemma_follows_trans(actor, next, next.release_stalled(now));
        }
    }
}

pub(crate) proof fn lemma_index_front_follows(actor: ActorModel)
    requires
        actor.valid(),
        actor.sealed.len() > 0,
    ensures
        follows(actor, actor.index_front()),
        actor.index_front().sealed == actor.sealed.drop_first(),
{
    reveal(ActorModel::valid);
    reveal(keeps);
    let front = actor.sealed[0];
    let after = actor.index_front();
    let footer = front.footer;
    lemma_front_is_accepted(actor);
    lemma_insert_keeps_valid(actor.catalog, front.object_seq, footer);
    assert(footer_fits(footer, front.object_seq));
    lemma_by_region_of_increasing(footer);
    let max_ids = actor.catalog.max_ids;
    let raised = after.catalog.max_ids;
    assert(raised == raised_ids(max_ids, footer));
    assert(ids_grow(max_ids, raised));
    assert(after.sealed == actor.sealed.drop_first());
    assert(in_flight(after.sealed) <= in_flight(actor.sealed)) by {
        lemma_in_flight_parts(actor.sealed, 1);
        assert(actor.sealed.skip(1) =~= actor.sealed.drop_first());
    }
    assert forall|i: int| 0 <= i < after.sealed.len() implies #[trigger] after.sealed[i]
        == actor.sealed[i + 1] by {}
    assert forall|i: int, k: int|
        0 <= i < after.sealed.len() && 0 <= k < after.sealed[i].waiters.len() implies covered(
        (#[trigger] after.sealed[i].waiters[k]).last_ids,
        after.sealed[i].footer,
    ) by {
        assert(covered(actor.sealed[i + 1].waiters[k].last_ids, actor.sealed[i + 1].footer));
    }
    assert(after.in_order());
    if after.has_seq() {
        let lowest = after.lowest_object_seq();
        assert(front.object_seq < lowest) by {
            if after.sealed.len() > 0 {
                assert(after.sealed[0] == actor.sealed[1]);
            }
        }
        assert forall|region: u64| #[trigger] raised.contains_key(region) implies floor_of(
            raised[region] as int,
        ) <= lowest by {
            if has_region(footer, region) {
                let i = choose|i: int|
                    0 <= i < footer.len() && (#[trigger] footer[i]).region_id.0 == region;
                lemma_entry_of(footer, i);
                assert(footer[i].max_entry_id < id_at(front.object_seq + 1, 0));
            }
            if max_ids.contains_key(region) {
                assert(floor_of(max_ids[region] as int) <= actor.lowest_object_seq());
            }
        }
        assert forall|seq: u64| #[trigger] after.catalog.objects.contains_key(seq) implies seq
            < lowest by {
            if seq != front.object_seq {
                assert(actor.catalog.objects.contains_key(seq));
            }
        }
    }
    assert(after.above_durable());
    assert(after.covers_waiters());
    let acks = acknowledge(front.waiters);
    assert forall|i: int| 0 <= i < actor.actions.len() implies #[trigger] after.actions[i]
        == actor.actions[i] by {}
    assert forall|i: int| actor.actions.len() <= i < after.actions.len() implies honest(
        after,
        #[trigger] after.actions[i],
    ) by {
        let k = i - actor.actions.len();
        if k < acks.len() {
            assert(after.actions[i] == acks[k]);
            let last_ids = front.waiters[k].last_ids;
            assert(covered(actor.sealed[0].waiters[k].last_ids, actor.sealed[0].footer));
            assert(durable(last_ids, raised));
        } else {
            lemma_answer_durable(actor.durable_waiters, raised);
        }
    }
}

/// The answers to durability waiters answer no append.
pub proof fn lemma_answer_durable(
    waiters: Seq<crate::actor_model::DurableWaiter>,
    max_ids: Map<u64, EntryId>,
)
    ensures
        forall|i: int|
            0 <= i < crate::actor_model::answer_durable(waiters, max_ids).len() ==> (
            #[trigger] crate::actor_model::answer_durable(waiters, max_ids)[i]) is Answer,
    decreases waiters.len(),
{
    if waiters.len() > 0 {
        lemma_answer_durable(waiters.drop_last(), max_ids);
    }
}

pub(crate) proof fn lemma_settle_front_follows(actor: ActorModel)
    requires
        actor.valid(),
    ensures
        follows(actor, actor.settle_front()),
    decreases actor.sealed.len(),
{
    if actor.sealed.len() == 0 {
        lemma_follows_self(actor);
    } else {
        let front = actor.sealed[0];
        match front.state {
            CreateState::Pending => {
                lemma_follows_self(actor);
            },
            CreateState::InFlight => {
                lemma_follows_self(actor);
            },
            CreateState::Created => {
                lemma_front_is_accepted(actor);
                lemma_index_front_follows(actor);
                let next = actor.index_front();
                lemma_settle_front_follows(next);
                lemma_follows_trans(actor, next, next.settle_front());
            },
            CreateState::Failed(error) => {
                if crate::actor_model::find_state(
                    actor.sealed,
                    CreateState::InFlight,
                    0,
                ) is Some {
                    lemma_follows_self(actor);
                } else if let Some(later) = crate::actor_model::find_state(
                    actor.sealed,
                    CreateState::Created,
                    1,
                ) {
                    lemma_poison_follows(
                        actor,
                        Error::WalObjectHistoryGap {
                            object_seq: front.object_seq,
                            later_object_seq: actor.sealed[later].object_seq,
                        },
                    );
                } else {
                    lemma_roll_back_follows(actor, error);
                }
            },
        }
    }
}

proof fn lemma_settle_follows(actor: ActorModel, now: u64)
    requires
        actor.valid(),
    ensures
        follows(actor, actor.settle(now)),
{
    let settled = actor.settle_front();
    lemma_settle_front_follows(actor);
    let started = settled.start_creates();
    lemma_start_creates_follows(settled);
    lemma_follows_trans(actor, settled, started);
    lemma_release_follows(started, now);
    lemma_follows_trans(actor, started, started.release_stalled(now));
}

pub(crate) proof fn lemma_with_state_follows(actor: ActorModel, i: int, state: CreateState)
    requires
        actor.valid(),
        0 <= i < actor.sealed.len(),
        state != CreateState::InFlight,
        state is Failed ==> actor.ack_mode == AckMode::Durable || actor.stopped,
    ensures
        follows(actor, actor.with_state(i, state)),
{
    reveal(ActorModel::valid);
    reveal(keeps);
    let after = actor.with_state(i, state);
    lemma_in_flight_update(actor.sealed, i, SealedModel { state, ..actor.sealed[i] });
    assert(same_batches(actor.sealed, after.sealed));
    lemma_same_pipeline(actor, after);
}

/// Draining the pipeline keeps the promises.
pub(crate) proof fn lemma_draining_follows(actor: ActorModel)
    requires
        actor.valid(),
    ensures
        follows(actor, ActorModel { draining: true, ..actor }),
{
    let after = ActorModel { draining: true, ..actor };
    assert(same_batches(actor.sealed, after.sealed));
    lemma_same_pipeline(actor, after);
}

/// A create that runs no longer keeps the promises.
pub(crate) proof fn lemma_create_done_follows(actor: ActorModel, object_seq: u64)
    requires
        actor.valid(),
    ensures
        follows(actor, actor.create_done(object_seq)),
{
    let done = actor.create_done(object_seq);
    assert(same_batches(actor.sealed, done.sealed));
    lemma_same_pipeline(actor, done);
}

/// A batch that is found has the sequence.
pub proof fn lemma_find_seq_bounds(sealed: Seq<SealedModel>, object_seq: u64, i: int)
    requires
        0 <= i,
    ensures
        crate::actor_model::find_seq(sealed, object_seq, i) matches Some(at) ==> i <= at
            < sealed.len() && sealed[at].object_seq == object_seq,
    decreases sealed.len() - i,
{
    if i < sealed.len() && sealed[i].object_seq != object_seq {
        lemma_find_seq_bounds(sealed, object_seq, i + 1);
    }
}

/// The outcome of a create keeps the promises of the actor: in the durable mode an append is
/// acknowledged only when all its entries are durable, in the order of the sequences.
pub proof fn lemma_create_completed_follows(
    actor: ActorModel,
    object_seq: u64,
    result: Result<(), Error>,
    now: u64,
)
    requires
        actor.valid(),
    ensures
        follows(actor, actor.create_completed(object_seq, result, now)),
{
    let done = actor.create_done(object_seq);
    let after = actor.create_completed(object_seq, result, now);
    lemma_create_done_follows(actor, object_seq);
    lemma_find_seq_bounds(actor.sealed, object_seq, 0);
    if let Some(i) = crate::actor_model::find_seq(actor.sealed, object_seq, 0) {
        match result {
            Ok(()) => {
                let noted = done.with_state(i, CreateState::Created);
                lemma_with_state_follows(done, i, CreateState::Created);
                lemma_settle_follows(noted, now);
                lemma_follows_trans(done, noted, after);
            },
            Err(error) => {
                if error is WalObjectStore {
                    if actor.ack_mode == AckMode::Enqueued && !actor.stopped {
                        let noted = done.with_state(i, CreateState::Pending);
                        lemma_with_state_follows(done, i, CreateState::Pending);
                        lemma_settle_follows(noted, now);
                        lemma_follows_trans(done, noted, after);
                    } else {
                        let failed = done.with_state(i, CreateState::Failed(error));
                        let noted = ActorModel { draining: true, ..failed };
                        lemma_with_state_follows(done, i, CreateState::Failed(error));
                        lemma_draining_follows(failed);
                        lemma_follows_trans(done, failed, noted);
                        lemma_settle_follows(noted, now);
                        lemma_follows_trans(done, noted, after);
                    }
                } else {
                    lemma_poison_follows(done, error);
                }
            },
        }
        lemma_follows_trans(actor, done, after);
    }
}

pub(crate) proof fn lemma_raise_floor_follows(actor: ActorModel, region: u64, entry_id: EntryId)
    requires
        actor.valid(),
    ensures
        follows(actor, actor.raise_sequence_floor(region, entry_id)),
{
    reveal(ActorModel::raise_sequence_floor);
    reveal(ActorModel::valid);
    reveal(keeps);
    let after = actor.raise_sequence_floor(region, entry_id);
    if actor.needs_no_floor(region, entry_id) || actor.terminal is Some || actor.sealed.len() > 0
        || !actor.settled_seq() {
        lemma_follows_self(actor);
    } else if floor_of(entry_id as int) < OBJECT_SEQ_LIMIT {
        assert(after.lowest_object_seq() > actor.lowest_object_seq());
        assert(after.above_durable()) by {
            assert forall|region: u64| #[trigger]
                after.catalog.max_ids.contains_key(region) implies floor_of(
                after.catalog.max_ids[region] as int,
            ) <= after.lowest_object_seq() by {
                assert(floor_of(actor.catalog.max_ids[region] as int)
                    <= actor.lowest_object_seq());
            }
        }
        assert(after.valid());
    } else {
        lemma_poison_at_follows(actor, None, crate::actor_model::exhausted());
    }
}

proof fn lemma_collect_follows(actor: ActorModel)
    requires
        actor.valid(),
    ensures
        follows(actor, actor.collect_garbage()),
{
    reveal(ActorModel::collect_garbage);
    reveal(ActorModel::valid);
    reveal(keeps);
    let after = actor.collect_garbage();
    assert(same_batches(actor.sealed, after.sealed));
    assert forall|i: int| 0 <= i < actor.actions.len() implies #[trigger] after.actions[i]
        == actor.actions[i] by {}
    lemma_same_pipeline(actor, after);
}

/// Moving a watermark up keeps the promises of the actor.
pub proof fn lemma_obsolete_follows(
    actor: ActorModel,
    region_id: RegionId,
    entry_id: EntryId,
    watermark: EntryId,
    waiter: u64,
)
    requires
        actor.valid(),
    ensures
        follows(actor, actor.obsolete_upto(region_id, entry_id, watermark, waiter)),
{
    let raised = actor.raise_sequence_floor(region_id.0, entry_id);
    let after = actor.obsolete_upto(region_id, entry_id, watermark, waiter);
    lemma_raise_floor_follows(actor, region_id.0, entry_id);
    match actor.floor_failure(region_id.0, entry_id) {
        Some(failure) => {
            lemma_answer_follows(raised, ActionModel::Answer { waiter, result: Err(failure) });
            lemma_follows_trans(actor, raised, after);
        },
        None => {
            let noted = ActorModel {
                obsolete: crate::actor_model::raise_watermark(
                    raised.obsolete,
                    region_id.0,
                    watermark,
                ),
                ..raised
            };
            assert(same_batches(raised.sealed, noted.sealed));
            lemma_same_pipeline(raised, noted);
            lemma_follows_trans(actor, raised, noted);
            let collected = noted.collect_garbage();
            lemma_collect_follows(noted);
            lemma_follows_trans(actor, noted, collected);
            lemma_answer_follows(collected, ActionModel::Answer { waiter, result: Ok(()) });
            lemma_follows_trans(actor, collected, after);
        },
    }
}

/// A batch that is found is in the state.
pub proof fn lemma_find_state_bounds(sealed: Seq<SealedModel>, state: CreateState, i: int)
    requires
        0 <= i,
    ensures
        crate::actor_model::find_state(sealed, state, i) matches Some(at) ==> i <= at
            < sealed.len() && sealed[at].state == state,
    decreases sealed.len() - i,
{
    if i < sealed.len() && sealed[i].state != state {
        lemma_find_state_bounds(sealed, state, i + 1);
    }
}

/// Beginning to stop keeps the promises of the actor.
pub proof fn lemma_begin_exit_follows(actor: ActorModel, waiter: u64)
    requires
        actor.valid(),
    ensures
        follows(actor, actor.begin_exit(waiter)),
{
    reveal(ActorModel::valid);
    reveal(keeps);
    let failure = Failure::Own(Error::ObjectStoreWalStopped);
    let stopping = ActorModel { stop: actor.stop.push(waiter), ..actor };
    let after = actor.begin_exit(waiter);
    match actor.ack_mode {
        AckMode::Durable => {
            lemma_find_state_bounds(actor.sealed, CreateState::Pending, 0);
            let dropped = ActorModel {
                batch: actor.batch.cleared(),
                pending: Seq::empty(),
                ..stopping.act_all(crate::actor_model::fail_pending(actor.pending, failure))
            };
            assert forall|i: int| 0 <= i < actor.actions.len() implies #[trigger] after.actions[i]
                == actor.actions[i] by {}
            if let Some(at) = crate::actor_model::find_state(
                actor.sealed,
                CreateState::Pending,
                0,
            ) {
                lemma_in_flight_parts(actor.sealed, at);
                let answers = crate::actor_model::fail_sealed(actor.sealed.skip(at), failure);
                lemma_fail_sealed(actor.sealed.skip(at), failure);
                assert forall|i: int| actor.actions.len() <= i < after.actions.len() implies honest(
                    after,
                    #[trigger] after.actions[i],
                ) by {
                    if i >= dropped.actions.len() {
                        assert(after.actions[i] == answers[i - dropped.actions.len()]);
                    }
                }
                assert forall|i: int| 0 <= i < after.sealed.len() implies #[trigger] after.sealed[i]
                    == actor.sealed[i] by {}
                assert forall|i: int, k: int|
                    0 <= i < after.sealed.len() && 0 <= k
                        < after.sealed[i].waiters.len() implies covered(
                    (#[trigger] after.sealed[i].waiters[k]).last_ids,
                    after.sealed[i].footer,
                ) by {
                    assert(covered(actor.sealed[i].waiters[k].last_ids, actor.sealed[i].footer));
                }
                assert(after.in_order());
                assert(after.lowest_object_seq() == actor.lowest_object_seq());
                assert(after.above_durable());
                assert(after.covers_waiters());
            } else {
                assert(after == dropped);
                assert(after.sealed == actor.sealed);
                assert(after.covers_waiters());
                assert(after.in_order());
            }
        },
        AckMode::Enqueued => {
            let noted = ActorModel {
                stalled: Seq::empty(),
                ..stopping.act_all(crate::actor_model::fail_stalled(actor.stalled, failure))
            };
            assert(same_batches(actor.sealed, noted.sealed));
            assert forall|i: int| 0 <= i < actor.actions.len() implies #[trigger] noted.actions[i]
                == actor.actions[i] by {}
            lemma_same_pipeline(actor, noted);
            lemma_flush_follows(noted);
            lemma_follows_trans(actor, noted, after);
        },
    }
}

/// A request to seal the open batch keeps the promises of the actor.
pub proof fn lemma_seal_follows(actor: ActorModel, waiter: u64)
    requires
        actor.valid(),
    ensures
        follows(actor, actor.seal_requested(waiter)),
{
    reveal(ActorModel::valid);
    reveal(keeps);
    let after = actor.seal_requested(waiter);
    if actor.stopped {
        lemma_answer_follows(
            actor,
            ActionModel::Answer {
                waiter,
                result: Err(Failure::Own(Error::ObjectStoreWalStopped)),
            },
        );
    } else {
        let flushed = actor.flush();
        lemma_flush_follows(actor);
        if actor.seals() {
            crate::actor_model::lemma_flush_seals(actor);
            let i = flushed.sealed.len() - 1;
            let batch = flushed.sealed[i];
            let noted = SealedModel { seal_waiters: batch.seal_waiters.push(waiter), ..batch };
            lemma_in_flight_update(flushed.sealed, i, noted);
            assert(same_batches(flushed.sealed, after.sealed));
            lemma_same_pipeline(flushed, after);
        } else {
            lemma_answer_follows(
                flushed,
                ActionModel::Answer { waiter, result: flushed.health() },
            );
        }
        lemma_follows_trans(actor, flushed, after);
    }
}

/// The outcome of a delete keeps the promises of the actor.
pub proof fn lemma_delete_completed_follows(actor: ActorModel, object_seq: u64, deleted: bool)
    requires
        actor.valid(),
    ensures
        follows(actor, actor.delete_completed(object_seq, deleted)),
{
    reveal(ActorModel::valid);
    reveal(keeps);
    lemma_remove_keeps_valid(actor.catalog, object_seq);
    let after = actor.delete_completed(object_seq, deleted);
    assert(after.in_order());
    assert(after.numbered());
    assert(after.covers_waiters());
    assert(after.above_durable());
}

/// A durability waiter keeps the promises of the actor.
pub proof fn lemma_wait_durable_follows(
    actor: ActorModel,
    region_id: RegionId,
    entry_id: EntryId,
    waiter: u64,
)
    requires
        actor.valid(),
    ensures
        follows(actor, actor.wait_durable(region_id, entry_id, waiter)),
{
    reveal(ActorModel::valid);
    reveal(keeps);
    let after = actor.wait_durable(region_id, entry_id, waiter);
    assert(same_batches(actor.sealed, after.sealed));
    assert forall|i: int| 0 <= i < actor.actions.len() implies #[trigger] after.actions[i]
        == actor.actions[i] by {}
    lemma_same_pipeline(actor, after);
}

/// Recording a watermark and setting the stopped flag keep the promises of the actor.
pub proof fn lemma_flags_follow(actor: ActorModel, obsolete: Map<u64, EntryId>, stopped: bool)
    requires
        actor.valid(),
        ids_grow(actor.obsolete, obsolete),
        actor.stopped ==> stopped,
    ensures
        follows(actor, ActorModel { obsolete, stopped, ..actor }),
{
    reveal(ActorModel::valid);
    reveal(keeps);
    let after = ActorModel { obsolete, stopped, ..actor };
    assert(same_batches(actor.sealed, after.sealed));
    lemma_same_pipeline(actor, after);
}

/// Answering the callers of stop keeps the promises of the actor.
pub proof fn lemma_finish_exit_follows(actor: ActorModel)
    requires
        actor.valid(),
    ensures
        follows(actor, actor.finish_exit()),
{
    reveal(ActorModel::valid);
    reveal(keeps);
    let after = actor.finish_exit();
    assert(same_batches(actor.sealed, after.sealed));
    assert forall|i: int| 0 <= i < actor.actions.len() implies #[trigger] after.actions[i]
        == actor.actions[i] by {}
    lemma_same_pipeline(actor, after);
}

/// A flush on the interval keeps the promises of the actor.
pub proof fn lemma_tick_follows(actor: ActorModel)
    requires
        actor.valid(),
    ensures
        follows(actor, actor.tick()),
{
    lemma_flush_follows(actor);
    lemma_follows_self(actor);
}

/// Something that happens to the actor.
pub enum Event {
    Append { entries: Seq<Entry>, waiter: u64, now: u64 },
    CreateCompleted { object_seq: u64, result: Result<(), Error>, now: u64 },
    DeleteCompleted { object_seq: u64, deleted: bool },
    WaitDurable { region_id: RegionId, entry_id: EntryId, waiter: u64 },
    Obsolete { region_id: RegionId, entry_id: EntryId, watermark: EntryId, waiter: u64 },
    RecordObsolete { region_id: RegionId, entry_id: EntryId },
    Seal { waiter: u64 },
    Tick,
    BeginStop,
    Stop { waiter: u64 },
    FinishStop,
}

impl ActorModel {
    /// The state after an event.
    pub open spec fn step(self, event: Event) -> ActorModel {
        match event {
            Event::Append { entries, waiter, now } => self.append(entries, waiter, now),
            Event::CreateCompleted { object_seq, result, now } => self.create_completed(
                object_seq,
                result,
                now,
            ),
            Event::DeleteCompleted { object_seq, deleted } => self.delete_completed(
                object_seq,
                deleted,
            ),
            Event::WaitDurable { region_id, entry_id, waiter } => self.wait_durable(
                region_id,
                entry_id,
                waiter,
            ),
            Event::Obsolete { region_id, entry_id, watermark, waiter } => self.obsolete_upto(
                region_id,
                entry_id,
                watermark,
                waiter,
            ),
            Event::RecordObsolete { region_id, entry_id } => ActorModel {
                obsolete: crate::actor_model::raise_watermark(
                    self.obsolete,
                    region_id.0,
                    entry_id,
                ),
                ..self
            },
            Event::Seal { waiter } => self.seal_requested(waiter),
            Event::Tick => self.tick(),
            Event::BeginStop => ActorModel { stopped: true, ..self },
            Event::Stop { waiter } => self.begin_exit(waiter),
            Event::FinishStop => self.finish_exit(),
        }
    }

    /// The state after several events.
    pub open spec fn run(self, events: Seq<Event>) -> ActorModel
        decreases events.len(),
    {
        if events.len() == 0 {
            self
        } else {
            self.run(events.drop_last()).step(events.last())
        }
    }
}

/// Every event keeps the promises of the actor, whatever state it meets.
pub proof fn lemma_step_follows(actor: ActorModel, event: Event)
    requires
        actor.valid(),
    ensures
        follows(actor, actor.step(event)),
{
    match event {
        Event::Append { entries, waiter, now } => {
            lemma_append_follows(actor, entries, waiter, now);
        },
        Event::CreateCompleted { object_seq, result, now } => {
            lemma_create_completed_follows(actor, object_seq, result, now);
        },
        Event::DeleteCompleted { object_seq, deleted } => {
            lemma_delete_completed_follows(actor, object_seq, deleted);
        },
        Event::WaitDurable { region_id, entry_id, waiter } => {
            lemma_wait_durable_follows(actor, region_id, entry_id, waiter);
        },
        Event::Obsolete { region_id, entry_id, watermark, waiter } => {
            lemma_obsolete_follows(actor, region_id, entry_id, watermark, waiter);
        },
        Event::RecordObsolete { region_id, entry_id } => {
            lemma_flags_follow(
                actor,
                crate::actor_model::raise_watermark(actor.obsolete, region_id.0, entry_id),
                actor.stopped,
            );
        },
        Event::Seal { waiter } => {
            lemma_seal_follows(actor, waiter);
        },
        Event::Tick => {
            lemma_tick_follows(actor);
        },
        Event::BeginStop => {
            lemma_flags_follow(actor, actor.obsolete, true);
        },
        Event::Stop { waiter } => {
            lemma_begin_exit_follows(actor, waiter);
        },
        Event::FinishStop => {
            lemma_finish_exit_follows(actor);
        },
    }
}

/// Whatever happens to a valid actor, in whatever order, keeps its promises: ids are assigned from
/// sequences that never go back, the durable, issued and obsolete ids of a region never go down, a
/// terminal error is never replaced, at most [`MAX_IN_FLIGHT_CREATES`] creates are in flight, and
/// in the durable mode an append is acknowledged only once all its entries are durable.
pub proof fn lemma_run_follows(actor: ActorModel, events: Seq<Event>)
    requires
        actor.valid(),
    ensures
        follows(actor, actor.run(events)),
    decreases events.len(),
{
    if events.len() == 0 {
        lemma_follows_self(actor);
    } else {
        let earlier = actor.run(events.drop_last());
        lemma_run_follows(actor, events.drop_last());
        lemma_step_follows(earlier, events.last());
        lemma_follows_trans(actor, earlier, actor.run(events));
    }
}

/// An actor opened on a recovered catalog is valid.
pub proof fn lemma_opened_is_valid(
    settings: ActorSettings,
    catalog: CatalogModel,
    next_object_seq: u64,
    durable_ids: Map<u64, EntryId>,
)
    requires
        catalog.valid(),
        next_object_seq == catalog.next_seq(),
        next_object_seq < OBJECT_SEQ_LIMIT,
        durable(durable_ids, catalog.max_ids),
    ensures
        opened(settings, catalog, next_object_seq, durable_ids).valid(),
{
    reveal(ActorModel::valid);
    let actor = opened(settings, catalog, next_object_seq, durable_ids);
    lemma_next_seq_is_fresh(catalog);
    lemma_floor_of_ids(catalog.max_ids);
    assert(actor.above_durable());
    assert(actor.fresh()) by {
        assert forall|region: u64| #[trigger] durable_ids.contains_key(region) implies
            durable_ids[region] <= id_at(next_object_seq as int, 0) by {
            assert(floor_of(catalog.max_ids[region] as int) <= next_object_seq);
        }
    }
}

/// The ids that an append is given are above every durable id of its regions, and in the enqueued
/// mode above every id that was ever handed out: no id is assigned twice.
pub proof fn lemma_new_ids_are_fresh(actor: ActorModel, entries: Seq<Entry>, i: int)
    requires
        actor.valid(),
        actor.next_object_seq is Some,
        actor.batch.exhausted(entries) is None,
        0 <= i < entries.len(),
    ensures
        ({
            let placed_entries = placed(
                actor.next_object_seq->0,
                actor.batch.entries,
                entries,
            );
            let region = entries[i].region_id.0;
            &&& placed_entries[i].entry_id > largest_id(actor.catalog.max_ids, region)
            &&& actor.ack_mode == AckMode::Enqueued && !actor.stopped && actor.terminal is None
                ==> placed_entries[i].entry_id > largest_id(actor.issued, region)
        }),
{
    reveal(ActorModel::valid);
    let next = actor.next_object_seq->0;
    let region = entries[i].region_id.0;
    crate::batch::lemma_positions_left(actor.batch.entries, entries, 0);
    assert(entries.take(i + 1).drop_last() =~= entries.take(i));
    assert(count_region(actor.batch.entries, entries[i].region_id.0) + count_region(
        entries.take(i + 1),
        region,
    ) < POSITION_LIMIT);
    if actor.sealed.len() > 0 {
        assert(actor.sealed[0].object_seq < next);
    }
    if actor.catalog.max_ids.contains_key(region) {
        let id = actor.catalog.max_ids[region] as int;
        assert(floor_of(id) <= actor.lowest_object_seq());
        lemma_floor_is_least(id);
        assert(id < id_at(floor_of(id), 1));
    }
}

/// Once an obsolete watermark was accepted, every id that is assigned later is greater: the
/// sequence stays above the object that the watermark names, whatever happens next. In the
/// enqueued mode this holds of ids the actor did not hand out; those it handed out are covered by
/// [`lemma_new_ids_are_fresh`].
pub proof fn lemma_obsolete_fences_ids(
    actor: ActorModel,
    region_id: RegionId,
    entry_id: EntryId,
    watermark: EntryId,
    waiter: u64,
    later: ActorModel,
    position: int,
)
    requires
        actor.valid(),
        !actor.stopped,
        actor.floor_failure(region_id.0, entry_id) is None,
        actor.ack_mode == AckMode::Enqueued ==> entry_id > largest_id(actor.issued, region_id.0),
        follows(actor.obsolete_upto(region_id, entry_id, watermark, waiter), later),
        later.next_object_seq is Some,
        1 <= position,
    ensures
        entry_id < id_at(later.next_object_seq->0 as int, position),
{
    let after = actor.obsolete_upto(region_id, entry_id, watermark, waiter);
    lemma_obsolete_follows(actor, region_id, entry_id, watermark, waiter);
    let id = entry_id as int;
    lemma_floor_is_least(id);
    assert(id < id_at(floor_of(id), 1));
    assert(after.has_seq() && floor_of(id) <= after.lowest_object_seq()) by {
        reveal(ActorModel::valid);
        reveal(ActorModel::raise_sequence_floor);
        reveal(ActorModel::collect_garbage);
    }
    assert(after.lowest_object_seq() <= later.lowest_object_seq()) by {
        reveal(keeps);
    }
    assert(later.lowest_object_seq() <= later.next_object_seq->0) by {
        reveal(ActorModel::valid);
        if later.sealed.len() > 0 {
            assert(later.sealed[0].object_seq < later.next_object_seq->0);
        }
    }
    assert(floor_of(id) <= later.next_object_seq->0);
}

/// A collection deletes only objects whose every segment is at or below the watermark of its
/// region, never the object with the highest sequence, and none that is being deleted already.
pub proof fn lemma_collects_only_obsolete(actor: ActorModel, object_seq: u64)
    requires
        actor.valid(),
        actor.collectible().contains(object_seq),
    ensures
        actor.catalog.objects.contains_key(object_seq),
        is_obsolete(actor.catalog.objects[object_seq], actor.obsolete),
        object_seq < actor.catalog.last_seq(),
        !actor.deleting.contains(object_seq),
{
    reveal(ActorModel::valid);
    let found = actor.catalog.deletable(
        actor.obsolete,
        0,
        usize::MAX as int,
        usize::MAX as int,
    ).0;
    lemma_not_deleting(found, actor.deleting);
    lemma_deletable(actor.catalog, actor.obsolete, 0, usize::MAX as int, usize::MAX as int);
}

/// After a roll back the same entries get the same ids again, and are written as the same object:
/// the sequence of the failed batch is the next one and the open batch is empty.
pub proof fn lemma_retry_repeats_the_object(
    actor: ActorModel,
    error: Error,
    entries: Seq<Entry>,
)
    requires
        actor.valid(),
        actor.sealed.len() > 0,
    ensures
        ({
            let object_seq = actor.sealed[0].object_seq;
            let after = actor.roll_back(object_seq, error);
            &&& after.next_object_seq == Some(object_seq)
            &&& after.batch.entries.len() == 0
            &&& after.writer_instance == actor.writer_instance
            &&& after.sealed.len() == 0
            &&& after.batch.exhausted(entries) == crate::batch::exhausted_from(
                Seq::empty(),
                entries,
                0,
            )
            &&& after.batch.with(object_seq, entries, 0).entries == placed(
                object_seq,
                Seq::empty(),
                entries,
            )
        }),
{
    reveal(ActorModel::roll_back);
    let object_seq = actor.sealed[0].object_seq;
    let after = actor.roll_back(object_seq, error);
    assert(after.batch.entries =~= Seq::empty());
    assert(after.batch.with(object_seq, entries, 0).entries =~= placed(
        object_seq,
        Seq::empty(),
        entries,
    ));
}

/// Admitting entries in one append or in two gives them the same ids.
pub proof fn lemma_admission_is_associative(
    object_seq: u64,
    admitted: Seq<Entry>,
    first: Seq<Entry>,
    second: Seq<Entry>,
)
    ensures
        placed(object_seq, admitted, first + second) == placed(object_seq, admitted, first)
            + placed(object_seq, admitted + placed(object_seq, admitted, first), second),
{
    let all = first + second;
    let one = placed(object_seq, admitted, all);
    let front = placed(object_seq, admitted, first);
    let back = placed(object_seq, admitted + front, second);
    assert forall|k: int| 0 <= k < all.len() implies one[k] == (front + back)[k] by {
        let region = all[k].region_id.0;
        if k < first.len() {
            assert(all.take(k + 1) =~= first.take(k + 1));
        } else {
            let j = k - first.len();
            assert(all.take(k + 1) =~= first + second.take(j + 1));
            lemma_count_concat(first, second.take(j + 1), region);
            lemma_count_concat(admitted, front, region);
            crate::batch::lemma_placed_counts(object_seq, admitted, first, region);
        }
    }
    assert(one =~= front + back);
}

} // verus!
