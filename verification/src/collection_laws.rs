//! What becomes of a watermark, and which objects a collection deletes.
use vstd::prelude::*;

use crate::actor::lemma_not_deleting;
use crate::actor_model::{not_deleting, AckMode, ActionModel, ActorModel};
use crate::catalog::{
    floor_of_ids, is_obsolete, lemma_deletable, lemma_floor_of_ids, lemma_rank, CatalogModel,
};
use crate::error::{Error, Failure};
use crate::format::FooterEntry;
use crate::id::{floor_of, EntryId, RegionId};
use crate::ordmap::{lemma_lists_keys, ordered_keys, strictly_increasing};

verus! {

/// Every entry of the object is at or below the watermark of its region.
pub open spec fn outlived(footer: Seq<FooterEntry>, watermarks: Map<u64, EntryId>) -> bool {
    forall|i: int|
        0 <= i < footer.len() ==> watermarks.contains_key((#[trigger] footer[i]).region_id.0)
            && footer[i].max_entry_id <= watermarks[footer[i].region_id.0]
}

/// An object with a higher sequence is indexed.
pub open spec fn has_successor(catalog: CatalogModel, object_seq: u64) -> bool {
    exists|later: u64| #[trigger] catalog.objects.contains_key(later) && object_seq < later
}

/// No id that was ever indexed lies beyond the object after this one.
pub open spec fn reaches_all_ids(catalog: CatalogModel, object_seq: u64) -> bool {
    forall|region: u64| #[trigger]
        catalog.max_ids.contains_key(region) ==> catalog.max_ids[region] <= (object_seq + 1)
            * 1_048_576
}

/// The ids name no object beyond the one after the highest indexed object.
pub open spec fn ids_are_covered(catalog: CatalogModel) -> bool {
    exists|top: u64| #[trigger] catalog.objects.contains_key(top) && reaches_all_ids(catalog, top)
}

/// The object is to be deleted: it is outlived, it is not the highest one, and the ids name no
/// later object.
pub open spec fn is_due(
    catalog: CatalogModel,
    watermarks: Map<u64, EntryId>,
    object_seq: u64,
) -> bool {
    &&& catalog.objects.contains_key(object_seq)
    &&& outlived(catalog.objects[object_seq], watermarks)
    &&& has_successor(catalog, object_seq)
    &&& ids_are_covered(catalog)
}

/// The delete of the object is asked for between the two states.
pub open spec fn asks_for_delete(before: ActorModel, after: ActorModel, object_seq: u64) -> bool {
    exists|i: int|
        before.actions.len() <= i < after.actions.len() && #[trigger] after.actions[i] == (
        ActionModel::Delete { object_seq })
}

/// The objects can be counted.
pub open spec fn is_countable(catalog: CatalogModel) -> bool {
    catalog.objects.dom().len() <= usize::MAX
}

/// A pass whose bounds are not reached goes to the end.
proof fn lemma_scan_ends(
    catalog: CatalogModel,
    obsolete: Map<u64, EntryId>,
    limit: int,
    scan_limit: int,
    start: int,
    i: int,
    found: Seq<u64>,
)
    requires
        0 <= start <= i,
        found.len() <= i - start,
        ordered_keys(catalog.objects).len() <= limit,
        ordered_keys(catalog.objects).len() <= scan_limit,
    ensures
        catalog.scan_from(obsolete, limit, scan_limit, start, i, found).1 == 0,
    decreases ordered_keys(catalog.objects).len() - i,
{
    let keys = ordered_keys(catalog.objects);
    if i < keys.len() - 1 {
        if is_obsolete(catalog.objects[keys[i]], obsolete) {
            lemma_scan_ends(
                catalog,
                obsolete,
                limit,
                scan_limit,
                start,
                i + 1,
                found.push(keys[i]),
            );
        } else {
            lemma_scan_ends(catalog, obsolete, limit, scan_limit, start, i + 1, found);
        }
    }
}

/// The highest indexed sequence.
proof fn lemma_last_seq(catalog: CatalogModel)
    requires
        catalog.valid(),
        catalog.objects.dom().len() > 0,
    ensures
        catalog.objects.contains_key(catalog.last_seq()),
        forall|seq: u64| #[trigger]
            catalog.objects.contains_key(seq) ==> seq <= catalog.last_seq(),
{
    let keys = ordered_keys(catalog.objects);
    lemma_lists_keys(catalog.objects);
    assert(keys.contains(keys.last()));
    assert forall|seq: u64| #[trigger] catalog.objects.contains_key(seq) implies seq
        <= catalog.last_seq() by {
        assert(keys.contains(seq));
        let k = keys.index_of(seq);
        assert(keys[k] == seq);
    }
}

proof fn lemma_cover(catalog: CatalogModel)
    requires
        catalog.valid(),
        catalog.objects.dom().len() > 0,
    ensures
        catalog.ids_name_later_object() <==> !ids_are_covered(catalog),
{
    lemma_last_seq(catalog);
    lemma_floor_of_ids(catalog.max_ids);
    let last = catalog.last_seq();
    if ids_are_covered(catalog) {
        let top = choose|top: u64| #[trigger]
            catalog.objects.contains_key(top) && reaches_all_ids(catalog, top);
        if floor_of_ids(catalog.max_ids) > 0 {
            let region = choose|region: u64| #[trigger]
                catalog.max_ids.contains_key(region) && floor_of(catalog.max_ids[region] as int)
                    == floor_of_ids(catalog.max_ids);
            assert(catalog.max_ids[region] <= (top + 1) * 1_048_576);
            assert(floor_of(catalog.max_ids[region] as int) <= top + 1);
        }
    } else {
        assert(catalog.objects.contains_key(last));
        assert(!reaches_all_ids(catalog, last));
        let region = choose|region: u64| #[trigger]
            catalog.max_ids.contains_key(region) && catalog.max_ids[region] > (last + 1)
                * 1_048_576;
        assert(floor_of(catalog.max_ids[region] as int) > last + 1);
    }
}

/// A whole pass over the catalog accepts every object that is due, in order of the sequences and
/// each once, and no other, and says that it is at the end.
pub proof fn lemma_whole_pass_is_complete(
    catalog: CatalogModel,
    watermarks: Map<u64, EntryId>,
    limit: int,
    scan_limit: int,
)
    requires
        catalog.valid(),
        0 < limit,
        0 < scan_limit,
        catalog.objects.dom().len() <= limit,
        catalog.objects.dom().len() <= scan_limit,
    ensures
        ({
            let (objects, resume) = catalog.deletable(watermarks, 0, limit, scan_limit);
            &&& resume == 0
            &&& strictly_increasing(objects)
            &&& forall|seq: u64| #[trigger]
                objects.contains(seq) <==> is_due(catalog, watermarks, seq)
        }),
{
    let (objects, resume) = catalog.deletable(watermarks, 0, limit, scan_limit);
    lemma_deletable(catalog, watermarks, 0, limit, scan_limit);
    lemma_lists_keys(catalog.objects);
    if catalog.objects.dom().len() == 0 {
        assert forall|seq: u64| !#[trigger] catalog.objects.contains_key(seq) by {
            assert(!ordered_keys(catalog.objects).contains(seq));
        }
    } else {
        lemma_cover(catalog);
        lemma_last_seq(catalog);
        if !catalog.ids_name_later_object() && 0 < catalog.last_seq() {
            let start = catalog.rank(0);
            lemma_rank_of_zero(ordered_keys(catalog.objects));
            lemma_scan_ends(
                catalog,
                watermarks,
                limit,
                scan_limit,
                start,
                start,
                Seq::empty(),
            );
        }
        assert forall|seq: u64| #[trigger] objects.contains(seq) <==> is_due(
            catalog,
            watermarks,
            seq,
        ) by {
            if catalog.objects.contains_key(seq) {
                assert(is_obsolete(catalog.objects[seq], watermarks) <==> outlived(
                    catalog.objects[seq],
                    watermarks,
                ));
                assert(has_successor(catalog, seq) <==> seq < catalog.last_seq());
            }
        }
    }
}

proof fn lemma_rank_of_zero(keys: Seq<u64>)
    ensures
        crate::catalog::count_below(keys, 0) == 0,
    decreases keys.len(),
{
    if keys.len() > 0 {
        lemma_rank_of_zero(keys.drop_last());
    }
}

proof fn lemma_not_deleting_is_distinct(found: Seq<u64>, deleting: Set<u64>)
    requires
        strictly_increasing(found),
    ensures
        strictly_increasing(not_deleting(found, deleting)),
        forall|i: int|
            0 <= i < not_deleting(found, deleting).len() ==> found.contains(
                #[trigger] not_deleting(found, deleting)[i],
            ),
    decreases found.len(),
{
    if found.len() > 0 {
        let rest = found.drop_last();
        lemma_not_deleting_is_distinct(rest, deleting);
        let less = not_deleting(rest, deleting);
        let all = not_deleting(found, deleting);
        assert forall|i: int| 0 <= i < all.len() implies found.contains(#[trigger] all[i]) by {
            if i < less.len() {
                assert(rest.contains(less[i]));
                assert(found[rest.index_of(less[i])] == less[i]);
            } else {
                assert(found[found.len() - 1] == all[i]);
            }
        }
        assert forall|i: int, j: int| 0 <= i < j < all.len() implies all[i] < all[j] by {
            assert(rest.contains(less[i]));
            if j == less.len() {
                assert(found[rest.index_of(less[i])] < found[found.len() - 1]);
            } else {
                assert(less[i] < less[j]);
            }
        }
    }
}

/// What a collection does, from `before` to `after`: the objects that are being deleted
/// afterwards are those that were before and those that are due; a delete is asked for of those
/// that were not being deleted before, once of each, in order of the sequences, and of no other;
/// and nothing else is asked for.
pub open spec fn collects_what_is_due(before: ActorModel, after: ActorModel) -> bool {
    &&& forall|seq: u64| #[trigger]
        after.deleting.contains(seq) <==> before.deleting.contains(seq) || is_due(
            before.catalog,
            before.obsolete,
            seq,
        )
    &&& forall|seq: u64| #[trigger]
        asks_for_delete(before, after, seq) <==> is_due(before.catalog, before.obsolete, seq)
            && !before.deleting.contains(seq)
    &&& before.actions.len() <= after.actions.len()
    &&& forall|i: int|
        0 <= i < before.actions.len() ==> #[trigger] after.actions[i] == before.actions[i]
    &&& forall|i: int|
        before.actions.len() <= i < after.actions.len() ==> (
        #[trigger] after.actions[i]) is Delete
    &&& forall|i: int, j: int|
        before.actions.len() <= i < j < after.actions.len() ==> (
        #[trigger] after.actions[i])->Delete_object_seq < (
        #[trigger] after.actions[j])->Delete_object_seq
}

/// A collection is complete: in a store that is neither stopped nor failed, every indexed object
/// below the highest whose segments are all at or below the watermarks of their regions is being
/// deleted afterwards, as long as the ids name no later object, and its delete is asked for unless
/// it was before. No other object is touched, and nothing else changes.
pub proof fn lemma_collection_is_complete(actor: ActorModel)
    requires
        actor.valid(),
        !actor.stopped,
        actor.terminal is None,
        is_countable(actor.catalog),
    ensures
        collects_what_is_due(actor, actor.collect_garbage()),
        actor.collect_garbage() == (ActorModel {
            deleting: actor.collect_garbage().deleting,
            actions: actor.collect_garbage().actions,
            ..actor
        }),
{
    reveal(ActorModel::collect_garbage);
    assert(actor.catalog.valid()) by {
        reveal(ActorModel::valid);
    }
    let max = usize::MAX as int;
    let found = actor.catalog.deletable(actor.obsolete, 0, max, max).0;
    let chosen = actor.collectible();
    let after = actor.collect_garbage();
    let n = actor.actions.len() as int;
    lemma_whole_pass_is_complete(actor.catalog, actor.obsolete, max, max);
    lemma_not_deleting(found, actor.deleting);
    lemma_not_deleting_is_distinct(found, actor.deleting);
    assert forall|seq: u64| #[trigger] asks_for_delete(actor, after, seq) <==> chosen.contains(
        seq,
    ) by {
        if chosen.contains(seq) {
            let k = chosen.index_of(seq);
            assert(after.actions[n + k] == (ActionModel::Delete { object_seq: seq }));
        }
        if asks_for_delete(actor, after, seq) {
            let i = choose|i: int|
                n <= i < after.actions.len() && #[trigger] after.actions[i] == (
                ActionModel::Delete { object_seq: seq });
            assert(chosen[i - n] == seq);
        }
    }
}

/// A store that is stopped or failed deletes nothing.
pub proof fn lemma_nothing_is_collected(actor: ActorModel)
    requires
        actor.stopped || actor.terminal is Some,
    ensures
        actor.collect_garbage() == actor,
{
    reveal(ActorModel::collect_garbage);
}

/// The sequence that the next failure would go back to has ids above `entry_id` only.
pub open spec fn is_out_of_reach(actor: ActorModel, entry_id: EntryId) -> bool {
    entry_id <= (if actor.sealed.len() > 0 {
        actor.sealed[0].object_seq
    } else {
        actor.next_object_seq->0
    }) * 1_048_576
}

/// Nothing was assigned an id of the next sequence, and no object of it may exist.
pub open spec fn is_idle(actor: ActorModel) -> bool {
    &&& actor.sealed.len() == 0
    &&& actor.batch.entries.len() == 0
    &&& actor.unresolved_object_seq matches Some(seq) ==> seq < actor.next_object_seq->0
}

/// The watermark of the region is the larger of what it was and what was asked for; no other
/// watermark changes.
pub open spec fn watermark_moves_up(
    before: Map<u64, EntryId>,
    after: Map<u64, EntryId>,
    region: u64,
    watermark: EntryId,
) -> bool {
    &&& after.contains_key(region)
    &&& after[region] >= watermark
    &&& before.contains_key(region) ==> after[region] >= before[region]
    &&& after[region] == watermark || before.contains_key(region) && after[region]
        == before[region]
    &&& forall|other: u64|
        other != region ==> (#[trigger] after.contains_key(other) <==> before.contains_key(other))
    &&& forall|other: u64|
        other != region && #[trigger] before.contains_key(other) ==> after[other] == before[other]
}

/// A request to move a watermark up is granted by a store that is neither stopped nor failed when
/// the ids are out of reach already, when the enqueued mode handed the id out, or when the store
/// is idle and a sequence above the ids is left. It is refused otherwise.
pub open spec fn is_granted(actor: ActorModel, region: u64, entry_id: EntryId) -> bool {
    ||| is_out_of_reach(actor, entry_id)
    ||| actor.ack_mode == AckMode::Enqueued && actor.issued.contains_key(region) && entry_id
        <= actor.issued[region]
    ||| is_idle(actor) && entry_id <= 17_592_186_044_415 * 1_048_576
}

/// A granted request moves the watermark of the region up, and only that one; every object that is
/// due by then is deleted; and the caller is answered with success after that. The entries, the
/// batches and the catalog stay as they are, and the next sequence moves only as far as it takes
/// to be above the id.
pub proof fn lemma_granted_watermark_collects(
    actor: ActorModel,
    region_id: RegionId,
    entry_id: EntryId,
    watermark: EntryId,
    waiter: u64,
) -> (noted: ActorModel)
    requires
        actor.valid(),
        !actor.stopped,
        actor.terminal is None,
        is_countable(actor.catalog),
        is_granted(actor, region_id.0, entry_id),
    ensures
        ({
            let after = actor.obsolete_upto(region_id, entry_id, watermark, waiter);
            &&& watermark_moves_up(actor.obsolete, noted.obsolete, region_id.0, watermark)
            &&& noted == (ActorModel {
                obsolete: noted.obsolete,
                next_object_seq: noted.next_object_seq,
                ..actor
            })
            &&& noted.next_object_seq is Some
            &&& noted.next_object_seq != actor.next_object_seq ==> {
                &&& actor.next_object_seq->0 < noted.next_object_seq->0
                &&& (noted.next_object_seq->0 - 1) * 1_048_576 < entry_id
                &&& entry_id <= noted.next_object_seq->0 * 1_048_576
            }
            &&& actor.ack_mode == AckMode::Durable ==> is_out_of_reach(noted, entry_id)
            &&& after.actions.len() > 0
            &&& after.actions.last() == (ActionModel::Answer { waiter, result: Ok(()) })
            &&& collects_what_is_due(
                noted,
                ActorModel { actions: after.actions.drop_last(), ..after },
            )
            &&& after == (ActorModel {
                deleting: after.deleting,
                actions: after.actions,
                ..noted
            })
        }),
{
    reveal(ActorModel::raise_sequence_floor);
    assert(actor.next_object_seq is Some) by {
        reveal(ActorModel::valid);
    }
    let raised = actor.raise_sequence_floor(region_id.0, entry_id);
    assert(actor.floor_failure(region_id.0, entry_id) is None);
    let noted = ActorModel {
        obsolete: crate::actor_model::raise_watermark(raised.obsolete, region_id.0, watermark),
        ..raised
    };
    let after = actor.obsolete_upto(region_id, entry_id, watermark, waiter);
    let collected = noted.collect_garbage();
    assert(noted.valid()) by {
        crate::actor_laws::lemma_raise_floor_follows(actor, region_id.0, entry_id);
        reveal(ActorModel::valid);
    }
    lemma_collection_is_complete(noted);
    assert(after.actions.drop_last() =~= collected.actions);
    assert(ActorModel { actions: after.actions.drop_last(), ..after } == collected);
    noted
}

/// What is durable can always be declared obsolete, and so can any id while the store is idle and
/// a sequence is left: such requests are granted.
pub proof fn lemma_durable_watermark_is_granted(
    actor: ActorModel,
    region: u64,
    entry_id: EntryId,
)
    requires
        actor.valid(),
        actor.terminal is None,
        actor.catalog.max_ids.contains_key(region),
        entry_id <= actor.catalog.max_ids[region],
    ensures
        is_granted(actor, region, entry_id),
{
    reveal(ActorModel::valid);
    assert(floor_of(actor.catalog.max_ids[region] as int) <= actor.lowest_object_seq());
}

/// A request that is not granted is answered with an error and moves no watermark: the sequence is
/// not settled while a batch is under way, and it is exhausted, which ends the store, when no
/// sequence is above the id.
pub proof fn lemma_refused_watermark(
    actor: ActorModel,
    region_id: RegionId,
    entry_id: EntryId,
    watermark: EntryId,
    waiter: u64,
)
    requires
        actor.valid(),
        !actor.stopped,
        actor.terminal is None,
        !is_granted(actor, region_id.0, entry_id),
    ensures
        ({
            let after = actor.obsolete_upto(region_id, entry_id, watermark, waiter);
            &&& after.actions.len() > 0
            &&& after.actions.last() matches ActionModel::Answer { waiter: w, result: Err(failure) }
                && w == waiter && (if !is_idle(actor) {
                failure == Failure::Own(
                    Error::WalObjectSequenceUnsettled {
                        object_seq: if actor.sealed.len() > 0 {
                            actor.sealed[0].object_seq
                        } else {
                            actor.next_object_seq->0
                        },
                    },
                )
            } else {
                failure == Failure::Shared(
                    Error::WalObjectSequenceExhausted { last_object_seq: 17_592_186_044_415 },
                )
            })
            &&& after.obsolete == actor.obsolete
            &&& after.deleting == actor.deleting
            &&& after.catalog == actor.catalog
            &&& !is_idle(actor) ==> after == actor.act(after.actions.last())
            &&& is_idle(actor) ==> after.terminal == Some(
                Error::WalObjectSequenceExhausted { last_object_seq: 17_592_186_044_415 },
            )
        }),
{
    reveal(ActorModel::raise_sequence_floor);
    reveal(ActorModel::poison);
    assert(actor.next_object_seq is Some) by {
        reveal(ActorModel::valid);
    }
}

/// A failed store answers with its error and moves nothing; a stopped store takes the watermark
/// and deletes nothing.
pub proof fn lemma_watermark_after_the_end(
    actor: ActorModel,
    region_id: RegionId,
    entry_id: EntryId,
    watermark: EntryId,
    waiter: u64,
)
    ensures
        !actor.stopped && actor.terminal is Some ==> actor.obsolete_upto(
            region_id,
            entry_id,
            watermark,
            waiter,
        ) == actor.act(
            ActionModel::Answer { waiter, result: Err(Failure::Shared(actor.terminal->0)) },
        ),
        actor.stopped ==> {
            let after = actor.obsolete_upto(region_id, entry_id, watermark, waiter);
            &&& watermark_moves_up(actor.obsolete, after.obsolete, region_id.0, watermark)
            &&& after == (ActorModel { obsolete: after.obsolete, ..actor }).act(
                ActionModel::Answer { waiter, result: Ok(()) },
            )
        },
{
    reveal(ActorModel::raise_sequence_floor);
    reveal(ActorModel::collect_garbage);
}

/// The outcome of a delete: the object leaves the catalog exactly when it was deleted, the largest
/// ids stay, and the object may be deleted again when it was not.
pub proof fn lemma_delete_outcome(actor: ActorModel, object_seq: u64, deleted: bool)
    ensures
        ({
            let after = actor.delete_completed(object_seq, deleted);
            &&& forall|seq: u64| #[trigger]
                after.catalog.objects.contains_key(seq) <==> actor.catalog.objects.contains_key(seq)
                    && !(deleted && seq == object_seq)
            &&& forall|seq: u64| #[trigger]
                after.catalog.objects.contains_key(seq) ==> after.catalog.objects[seq]
                    == actor.catalog.objects[seq]
            &&& after.catalog.max_ids == actor.catalog.max_ids
            &&& forall|seq: u64| #[trigger]
                after.deleting.contains(seq) <==> actor.deleting.contains(seq) && seq != object_seq
            &&& after == (ActorModel {
                catalog: after.catalog,
                deleting: after.deleting,
                ..actor
            })
        }),
{
}

/// The indexed objects from one sequence up to another.
pub open spec fn objects_between(catalog: CatalogModel, from: u64, upto: u64) -> Set<u64> {
    catalog.objects.dom().filter(|seq: u64| from <= seq < upto)
}

proof fn lemma_scan_bounds(
    catalog: CatalogModel,
    obsolete: Map<u64, EntryId>,
    limit: int,
    scan_limit: int,
    start: int,
    i: int,
    found: Seq<u64>,
) -> (at: int)
    requires
        catalog.valid(),
        0 <= start <= i,
        found.len() <= limit,
        i - start <= scan_limit,
    ensures
        ({
            let keys = ordered_keys(catalog.objects);
            let (objects, resume) = catalog.scan_from(
                obsolete,
                limit,
                scan_limit,
                start,
                i,
                found,
            );
            resume != 0 ==> {
                &&& i <= at < keys.len()
                &&& resume == keys[at]
                &&& objects.len() == limit || at - start == scan_limit
            }
        }),
    decreases ordered_keys(catalog.objects).len() - i,
{
    let keys = ordered_keys(catalog.objects);
    if i >= keys.len() - 1 || i - start == scan_limit || found.len() == limit {
        i
    } else if is_obsolete(catalog.objects[keys[i]], obsolete) {
        lemma_scan_bounds(
            catalog,
            obsolete,
            limit,
            scan_limit,
            start,
            i + 1,
            found.push(keys[i]),
        )
    } else {
        lemma_scan_bounds(catalog, obsolete, limit, scan_limit, start, i + 1, found)
    }
}

/// A pass over the catalog stops before the end only at one of its bounds: it accepted as many
/// objects as it may, or it looked at as many as it may.
pub proof fn lemma_pass_stops_at_its_bounds(
    catalog: CatalogModel,
    watermarks: Map<u64, EntryId>,
    resume_from: u64,
    limit: int,
    scan_limit: int,
)
    requires
        catalog.valid(),
        0 < limit,
        0 < scan_limit,
    ensures
        ({
            let (objects, resume) = catalog.deletable(watermarks, resume_from, limit, scan_limit);
            resume != 0 ==> objects.len() == limit || objects_between(
                catalog,
                resume_from,
                resume,
            ).len() == scan_limit
        }),
{
    let (objects, resume) = catalog.deletable(watermarks, resume_from, limit, scan_limit);
    if resume != 0 {
        let keys = ordered_keys(catalog.objects);
        lemma_lists_keys(catalog.objects);
        let start = lemma_rank(catalog, resume_from);
        let at = lemma_scan_bounds(
            catalog,
            watermarks,
            limit,
            scan_limit,
            start,
            start,
            Seq::empty(),
        );
        let part = keys.subrange(start, at);
        assert(part.no_duplicates());
        part.unique_seq_to_set();
        assert(part.to_set() =~= objects_between(catalog, resume_from, resume)) by {
            assert forall|seq: u64| #[trigger] part.to_set().contains(seq) <==> objects_between(
                catalog,
                resume_from,
                resume,
            ).contains(seq) by {
                if part.contains(seq) {
                    let k = part.index_of(seq);
                    assert(keys[start + k] == seq);
                    assert(keys.contains(seq));
                    assert(catalog.objects.contains_key(seq));
                    assert(keys[start] <= keys[start + k]);
                    assert(keys[start + k] < keys[at]);
                }
                if objects_between(catalog, resume_from, resume).contains(seq) {
                    assert(catalog.objects.contains_key(seq));
                    assert(keys.contains(seq));
                    let k = keys.index_of(seq);
                    assert(keys[k] == seq);
                    if k < start {
                        assert(keys[k] < resume_from);
                    }
                    if k >= at {
                        assert(keys[at] <= keys[k]);
                    }
                    assert(part[k - start] == seq);
                }
            }
        }
    }
}

} // verus!
