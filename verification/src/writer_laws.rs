//! What each request and each outcome does to the writer.
use vstd::prelude::*;

use crate::actor_laws::lemma_in_flight_update;
use crate::actor_model::{
    entry_records, in_flight, lemma_start_frame, AckMode, ActionModel, ActorModel, CreateState,
    SealedModel, MAX_IN_FLIGHT_CREATES,
};
use crate::encode_laws::lemma_open_batch_is_encodable;
use crate::error::Error;
use crate::format::{footer_of, grouped, object_bytes, Header};
use crate::logstore::Entry;

verus! {

/// The batches at these places, in their order, are being created.
pub open spec fn running_at(sealed: Seq<SealedModel>, places: Seq<int>) -> bool {
    &&& forall|i: int|
        0 <= i < places.len() ==> 0 <= #[trigger] places[i] < sealed.len()
            && sealed[places[i]].state == CreateState::InFlight
    &&& forall|i: int, j: int| 0 <= i < j < places.len() ==> places[i] < places[j]
}

/// Four batches are being created.
pub open spec fn four_run(sealed: Seq<SealedModel>) -> bool {
    exists|places: Seq<int>| #[trigger] running_at(sealed, places) && places.len() == 4
}

/// No batch waits for its create to be started.
pub open spec fn all_started(sealed: Seq<SealedModel>) -> bool {
    forall|i: int|
        0 <= i < sealed.len() ==> (#[trigger] sealed[i]).state != CreateState::Pending
}

proof fn lemma_running_places(sealed: Seq<SealedModel>, n: nat) -> (places: Seq<int>)
    requires
        n <= in_flight(sealed),
    ensures
        running_at(sealed, places),
        places.len() == n,
    decreases sealed.len(),
{
    if sealed.len() == 0 {
        Seq::empty()
    } else {
        let front = sealed.drop_last();
        let last = sealed.len() - 1;
        if sealed.last().state == CreateState::InFlight && n > 0 {
            let less = lemma_running_places(front, (n - 1) as nat);
            let places = less.push(last);
            assert forall|i: int| 0 <= i < places.len() implies 0 <= #[trigger] places[i]
                < sealed.len() && sealed[places[i]].state == CreateState::InFlight by {
                if i < less.len() {
                    assert(places[i] == less[i]);
                    assert(front[less[i]] == sealed[less[i]]);
                }
            }
            assert forall|i: int, j: int| 0 <= i < j < places.len() implies places[i]
                < places[j] by {
                if j < less.len() {
                    assert(less[i] < less[j]);
                } else {
                    assert(0 <= less[i] < front.len());
                }
            }
            places
        } else if sealed.last().state == CreateState::InFlight {
            Seq::empty()
        } else {
            let places = lemma_running_places(front, n);
            assert forall|i: int| 0 <= i < places.len() implies 0 <= #[trigger] places[i]
                < sealed.len() && sealed[places[i]].state == CreateState::InFlight by {
                assert(front[places[i]] == sealed[places[i]]);
            }
            places
        }
    }
}

proof fn lemma_running_bound(sealed: Seq<SealedModel>, places: Seq<int>)
    requires
        running_at(sealed, places),
    ensures
        places.len() <= in_flight(sealed),
    decreases sealed.len(),
{
    if places.len() > 0 {
        assert(0 <= places[places.len() - 1] < sealed.len());
        let front = sealed.drop_last();
        let less = if places.last() == sealed.len() - 1 {
            places.drop_last()
        } else {
            places
        };
        assert(running_at(front, less)) by {
            assert forall|i: int| 0 <= i < less.len() implies 0 <= #[trigger] less[i] < front.len()
                && front[less[i]].state == CreateState::InFlight by {
                assert(less[i] == places[i]);
                if i < places.len() - 1 {
                    assert(places[i] < places[places.len() - 1]);
                }
                assert(front[less[i]] == sealed[less[i]]);
            }
            assert forall|i: int, j: int| 0 <= i < j < less.len() implies less[i] < less[j] by {
                assert(places[i] < places[j]);
            }
        }
        lemma_running_bound(front, less);
    }
}

/// Never more than four creates run.
pub proof fn lemma_at_most_four_run(actor: ActorModel, places: Seq<int>)
    requires
        actor.valid(),
        running_at(actor.sealed, places),
    ensures
        places.len() <= 4,
{
    reveal(ActorModel::valid);
    lemma_running_bound(actor.sealed, places);
}

/// Four batches are being created exactly when no slot is free.
pub proof fn lemma_four_run_iff(sealed: Seq<SealedModel>)
    ensures
        four_run(sealed) <==> in_flight(sealed) >= 4,
{
    if four_run(sealed) {
        let places = choose|places: Seq<int>| #[trigger]
            running_at(sealed, places) && places.len() == 4;
        lemma_running_bound(sealed, places);
    }
    if in_flight(sealed) >= 4 {
        let places = lemma_running_places(sealed, 4);
        assert(running_at(sealed, places));
    }
}

/// The batches that are being created are counted one by one.
pub proof fn lemma_in_flight_adds_up(sealed: Seq<SealedModel>, batch: SealedModel)
    ensures
        in_flight(Seq::<SealedModel>::empty()) == 0,
        in_flight(sealed.push(batch)) == in_flight(sealed) + (if batch.state
            == CreateState::InFlight {
            1int
        } else {
            0
        }),
{
    assert(sealed.push(batch).drop_last() =~= sealed);
}

/// The batch is the same but for its state and the number of its attempts.
pub open spec fn same_batch(a: SealedModel, b: SealedModel) -> bool {
    &&& a.object_seq == b.object_seq
    &&& a.bytes == b.bytes
    &&& a.footer == b.footer
    &&& a.first_admitted_at == b.first_admitted_at
    &&& a.waiters == b.waiters
    &&& a.seal_waiters == b.seal_waiters
}

/// The batches stay, and a create is asked for of each that was started, and of no other.
pub open spec fn only_starts(before: ActorModel, after: ActorModel) -> bool {
    &&& after.sealed.len() == before.sealed.len()
    &&& forall|k: int|
        0 <= k < after.sealed.len() ==> same_batch(
            #[trigger] after.sealed[k],
            before.sealed[k],
        ) && ((after.sealed[k].state == before.sealed[k].state && after.sealed[k].attempts
            == before.sealed[k].attempts) || started(before, after, k))
    &&& before.actions.len() <= after.actions.len()
    &&& forall|i: int|
        0 <= i < before.actions.len() ==> #[trigger] after.actions[i] == before.actions[i]
    &&& forall|i: int|
        before.actions.len() <= i < after.actions.len() ==> starts_one(
            before,
            after,
            #[trigger] after.actions[i],
        )
}

/// The action asks for the create of a batch that was started.
pub open spec fn starts_one(before: ActorModel, after: ActorModel, action: ActionModel) -> bool {
    exists|k: int|
        0 <= k < after.sealed.len() && #[trigger] started(before, after, k) && action
            == create_of(before.sealed[k])
}

/// The request to create the object of the batch.
pub open spec fn create_of(batch: SealedModel) -> ActionModel {
    ActionModel::Create { object_seq: batch.object_seq, delayed: batch.attempts != 0 }
}

/// The create of the batch was started, counted and asked for.
pub open spec fn started(before: ActorModel, after: ActorModel, k: int) -> bool {
    &&& before.sealed[k].state == CreateState::Pending
    &&& after.sealed[k].state == CreateState::InFlight
    &&& after.sealed[k].attempts > 0
    &&& after.sealed[k].attempts == before.sealed[k].attempts + 1 || after.sealed[k].attempts
        == 4_294_967_295 && before.sealed[k].attempts == 4_294_967_295
    &&& exists|i: int|
        before.actions.len() <= i < after.actions.len() && #[trigger] after.actions[i]
            == create_of(before.sealed[k])
}

pub(crate) proof fn lemma_start_from(actor: ActorModel, i: int, running: nat)
    requires
        running == in_flight(actor.sealed),
        0 <= i <= actor.sealed.len(),
        forall|k: int| 0 <= k < i ==> (#[trigger] actor.sealed[k]).state != CreateState::Pending,
    ensures
        only_starts(actor, actor.start_from(i, running)),
        all_started(actor.start_from(i, running).sealed) || in_flight(
            actor.start_from(i, running).sealed,
        ) >= 4,
        running < 4 ==> (forall|k: int|
            i <= k < actor.sealed.len() && (forall|j: int|
                i <= j < k ==> (#[trigger] actor.sealed[j]).state != CreateState::Pending)
                ==> (#[trigger] actor.start_from(i, running).sealed[k]).state
                != CreateState::Pending),
    decreases actor.sealed.len() - i,
{
    let after = actor.start_from(i, running);
    if i >= actor.sealed.len() || running >= MAX_IN_FLIGHT_CREATES {
    } else if actor.sealed[i].state != CreateState::Pending {
        lemma_start_from(actor, i + 1, running);
    } else {
        let batch = actor.sealed[i];
        let begun = SealedModel {
            state: CreateState::InFlight,
            attempts: if batch.attempts == u32::MAX {
                u32::MAX
            } else {
                (batch.attempts + 1) as u32
            },
            ..batch
        };
        let next = ActorModel {
            sealed: actor.sealed.update(i, begun),
            creates: actor.creates.push(batch.object_seq),
            ..actor
        }.act(create_of(batch));
        lemma_in_flight_update(actor.sealed, i, begun);
        lemma_start_from(next, i + 1, running + 1);
        let at = actor.actions.len() as int;
        assert(next.actions[at] == create_of(batch));
        assert(after.actions[at] == create_of(batch));
        assert(next.sealed[i].state == CreateState::InFlight);
        assert(after.sealed[i].state == CreateState::InFlight && after.sealed[i].attempts
            == begun.attempts) by {
            assert(same_batch(after.sealed[i], next.sealed[i]));
        }
        assert(started(actor, after, i));
        assert forall|k: int| 0 <= k < after.sealed.len() implies same_batch(
            #[trigger] after.sealed[k],
            actor.sealed[k],
        ) && ((after.sealed[k].state == actor.sealed[k].state && after.sealed[k].attempts
            == actor.sealed[k].attempts) || started(actor, after, k)) by {
            assert(same_batch(after.sealed[k], next.sealed[k]));
            if k != i {
                assert(next.sealed[k] == actor.sealed[k]);
                if after.sealed[k].state != actor.sealed[k].state || after.sealed[k].attempts
                    != actor.sealed[k].attempts {
                    assert(started(next, after, k));
                    let a = choose|a: int|
                        next.actions.len() <= a < after.actions.len() && #[trigger] after.actions[a]
                            == create_of(next.sealed[k]);
                    assert(after.actions[a] == create_of(actor.sealed[k]));
                }
            }
        }
        assert forall|a: int| 0 <= a < actor.actions.len() implies #[trigger] after.actions[a]
            == actor.actions[a] by {
            assert(next.actions[a] == actor.actions[a]);
        }
        assert forall|a: int| actor.actions.len() <= a < after.actions.len() implies starts_one(
            actor,
            after,
            #[trigger] after.actions[a],
        ) by {
            if a == at {
                assert(started(actor, after, i));
            } else {
                assert(starts_one(next, after, after.actions[a]));
                let k = choose|k: int|
                    0 <= k < after.sealed.len() && #[trigger] started(next, after, k)
                        && after.actions[a] == create_of(next.sealed[k]);
                assert(k != i);
                assert(next.sealed[k] == actor.sealed[k]);
                assert(started(actor, after, k));
            }
        }
        assert forall|k: int|
            i <= k < actor.sealed.len() && (forall|j: int|
                i <= j < k ==> (#[trigger] actor.sealed[j]).state
                    != CreateState::Pending) implies (#[trigger] after.sealed[k]).state
            != CreateState::Pending by {
            if k > i {
                assert(actor.sealed[i].state != CreateState::Pending);
            }
        }
    }
}

/// Starting creates fills the free slots, in the order of the sequences: afterwards every batch is
/// started or four creates run. Nothing else changes.
pub proof fn lemma_start_creates_fills_slots(actor: ActorModel)
    requires
        !actor.draining,
        !(actor.stopped && actor.ack_mode == AckMode::Durable),
    ensures
        only_starts(actor, actor.start_creates()),
        all_started(actor.start_creates().sealed) || four_run(actor.start_creates().sealed),
        actor.start_creates() == (ActorModel {
            sealed: actor.start_creates().sealed,
            creates: actor.start_creates().creates,
            actions: actor.start_creates().actions,
            ..actor
        }),
{
    reveal(ActorModel::start_creates);
    lemma_start_from(actor, 0, in_flight(actor.sealed));
    lemma_start_frame(actor, 0, in_flight(actor.sealed));
    let after = actor.start_creates();
    if !all_started(after.sealed) {
        let places = lemma_running_places(after.sealed, 4);
        assert(running_at(after.sealed, places));
    }
}

/// Nothing is started while a failure is being settled, nor once the durable mode is stopped.
pub proof fn lemma_start_creates_waits(actor: ActorModel)
    requires
        actor.draining || actor.stopped && actor.ack_mode == AckMode::Durable,
    ensures
        actor.start_creates() == actor,
{
    reveal(ActorModel::start_creates);
}

/// The entries that wait in the open batch can be counted.
pub open spec fn small(entries: Seq<Entry>) -> bool {
    &&& entries.len() < 0x1_0000_0000
    &&& forall|i: int|
        0 <= i < entries.len() ==> (#[trigger] entries[i]).data@.len() < 0x1_0000_0000
}

/// The open batch became the last of the sealed ones: under the next sequence, written of its
/// entries, with the appends that waited for it. The earlier ones are as they were.
pub open spec fn is_sealed(before: ActorModel, after: ActorModel) -> bool {
    let object_seq = before.next_object_seq->0;
    let groups = grouped(entry_records(before.batch.entries));
    let n = before.sealed.len() as int;
    &&& after.batch.entries.len() == 0
    &&& after.pending.len() == 0
    &&& after.sealed.len() == n + 1
    &&& after.sealed[n].object_seq == object_seq
    &&& after.sealed[n].bytes == object_bytes(
        Header { object_seq, writer_instance: before.writer_instance },
        groups,
    )
    &&& after.sealed[n].footer == footer_of(groups)
    &&& after.sealed[n].waiters == before.pending
    &&& after.sealed[n].first_admitted_at == before.batch.first_admitted_at
    &&& forall|k: int| 0 <= k < n ==> same_batch(#[trigger] after.sealed[k], before.sealed[k])
    &&& object_seq + 1 < 17_592_186_044_416 ==> after.next_object_seq == Some(
        (object_seq + 1) as u64,
    ) && after.terminal == before.terminal
    &&& object_seq + 1 >= 17_592_186_044_416 ==> after.next_object_seq is None && after.terminal
        == Some(Error::WalObjectSequenceExhausted { last_object_seq: object_seq })
    &&& after.stalled == before.stalled
    &&& after.catalog == before.catalog
    &&& after.obsolete == before.obsolete
}

/// No append is answered between the two states.
pub open spec fn answers_no_append(before: ActorModel, after: ActorModel) -> bool {
    &&& before.actions.len() <= after.actions.len()
    &&& forall|i: int|
        0 <= i < before.actions.len() ==> #[trigger] after.actions[i] == before.actions[i]
    &&& forall|i: int|
        before.actions.len() <= i < after.actions.len() ==> !((
        #[trigger] after.actions[i]) is AnswerAppend)
}

/// The create of the object is asked for between the two states.
pub open spec fn asks_for_create(before: ActorModel, after: ActorModel, object_seq: u64) -> bool {
    exists|i: int|
        before.actions.len() <= i < after.actions.len() && #[trigger] after.actions[i] == (
        ActionModel::Create { object_seq, delayed: false })
}

/// Sealing the open batch, in either mode: its entries are the last sealed batch, nobody is
/// answered yet, and its create is asked for when the batches before it are started, fewer than
/// four of them run, and nothing holds creates back.
pub proof fn lemma_flush_seals_the_batch(actor: ActorModel)
    requires
        actor.valid(),
        actor.terminal is None,
        actor.batch.entries.len() > 0,
        small(actor.batch.entries),
    ensures
        is_sealed(actor, actor.flush()),
        answers_no_append(actor, actor.flush()),
        !actor.draining && !(actor.stopped && actor.ack_mode == AckMode::Durable) ==> all_started(
            actor.flush().sealed,
        ) || four_run(actor.flush().sealed),
        !actor.draining && !(actor.stopped && actor.ack_mode == AckMode::Durable) && all_started(
            actor.sealed,
        ) && !four_run(actor.sealed) ==> actor.flush().sealed[actor.sealed.len() as int].state
            == CreateState::InFlight && asks_for_create(
            actor,
            actor.flush(),
            actor.next_object_seq->0,
        ),
        actor.flush().stopped == actor.stopped,
        actor.flush().draining == actor.draining,
{
    reveal(ActorModel::flush);
    lemma_open_batch_is_encodable(actor);
    assert(actor.next_object_seq is Some) by {
        reveal(ActorModel::valid);
    }
    let noted = actor.sealed_noted();
    let after = noted.start_creates();
    let n = actor.sealed.len() as int;
    assert(noted.sealed[n] == actor.sealed_batch(actor.next_object_seq->0));
    assert forall|k: int| 0 <= k < n implies #[trigger] noted.sealed[k] == actor.sealed[k] by {}
    if actor.draining || actor.stopped && actor.ack_mode == AckMode::Durable {
        lemma_start_creates_waits(noted);
    } else {
        lemma_start_creates_fills_slots(noted);
        assert(same_batch(after.sealed[n], noted.sealed[n]));
        assert forall|k: int| 0 <= k < n implies same_batch(
            #[trigger] after.sealed[k],
            actor.sealed[k],
        ) by {
            assert(same_batch(after.sealed[k], noted.sealed[k]));
        }
        if all_started(actor.sealed) && !four_run(actor.sealed) {
            if in_flight(actor.sealed) >= 4 {
                let places = lemma_running_places(actor.sealed, 4);
                assert(running_at(actor.sealed, places));
            }
            assert(noted.sealed.drop_last() =~= actor.sealed);
            assert(in_flight(noted.sealed) == in_flight(actor.sealed));
            lemma_start_from(noted, 0, in_flight(noted.sealed));
            reveal(ActorModel::start_creates);
            assert forall|j: int| 0 <= j < n implies (#[trigger] noted.sealed[j]).state
                != CreateState::Pending by {
                assert(noted.sealed[j] == actor.sealed[j]);
            }
            assert(after.sealed[n].state != CreateState::Pending);
            assert(started(noted, after, n));
            let i = choose|i: int|
                noted.actions.len() <= i < after.actions.len() && #[trigger] after.actions[i]
                    == create_of(noted.sealed[n]);
            assert(after.actions[i] == (ActionModel::Create {
                object_seq: actor.next_object_seq->0,
                delayed: false,
            }));
        }
    }
}

/// When the flush interval elapses on a store that is neither stopped nor failed, in either mode,
/// the open batch is sealed: its entries are the last sealed batch under the next sequence, nobody
/// is answered yet, and its create is asked for when the batches before it are started, fewer than
/// four of them run and no failure is being settled. An empty batch makes no object.
pub proof fn lemma_tick_seals_the_open_batch(actor: ActorModel)
    requires
        actor.valid(),
        !actor.stopped,
        actor.terminal is None,
        small(actor.batch.entries),
    ensures
        actor.batch.entries.len() == 0 ==> actor.tick() == actor,
        actor.batch.entries.len() > 0 ==> {
            &&& is_sealed(actor, actor.tick())
            &&& answers_no_append(actor, actor.tick())
            &&& !actor.draining ==> all_started(actor.tick().sealed) || four_run(
                actor.tick().sealed,
            )
            &&& !actor.draining && all_started(actor.sealed) && !four_run(actor.sealed)
                ==> asks_for_create(actor, actor.tick(), actor.next_object_seq->0)
        },
{
    if actor.batch.entries.len() == 0 {
        reveal(ActorModel::flush);
    } else {
        lemma_flush_seals_the_batch(actor);
    }
}

/// A request to seal does what the flush interval does, and whoever asked is answered with the
/// batch: not yet when there is one, and at once when there is nothing to seal.
pub proof fn lemma_seal_seals_the_open_batch(actor: ActorModel, waiter: u64)
    requires
        actor.valid(),
        !actor.stopped,
        actor.terminal is None,
        small(actor.batch.entries),
    ensures
        actor.batch.entries.len() == 0 ==> actor.seal_requested(waiter) == actor.act(
            ActionModel::Answer { waiter, result: Ok(()) },
        ),
        actor.batch.entries.len() > 0 ==> {
            let after = actor.seal_requested(waiter);
            let n = actor.sealed.len() as int;
            &&& after.batch.entries.len() == 0
            &&& after.sealed.len() == n + 1
            &&& after.sealed[n].object_seq == actor.next_object_seq->0
            &&& after.sealed[n].waiters == actor.pending
            &&& after.sealed[n].seal_waiters == actor.tick().sealed[n].seal_waiters.push(waiter)
            &&& after.actions == actor.tick().actions
        },
{
    reveal(ActorModel::flush);
    if actor.batch.entries.len() > 0 {
        lemma_flush_seals_the_batch(actor);
        lemma_open_batch_is_encodable(actor);
        reveal(ActorModel::valid);
    }
}

} // verus!
