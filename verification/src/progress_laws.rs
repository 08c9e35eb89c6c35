//! Nothing waits without an upload to wait for.
use vstd::prelude::*;

use crate::actor::{opened, ActorSettings};
use crate::actor_laws::{
    keeps, lemma_create_done_follows, lemma_draining_follows, lemma_find_seq_bounds,
    lemma_find_state_bounds, lemma_front_is_accepted, lemma_index_front_follows,
    lemma_settle_front_follows, lemma_start_creates_follows, lemma_step_follows,
    lemma_with_state_follows, Event,
};
use crate::actor_model::{
    find_seq, find_state, in_flight, lemma_take_in_keeps_stalled, raise_issued, sealed_bytes,
    AckMode, ActorModel, CreateState, PendingModel, SealedModel, StalledModel,
};
use crate::batch::placed_last_ids;
use crate::catalog::CatalogModel;
use crate::id::EntryId;
use crate::logstore::{total_size, Entry};
use crate::writer_laws::{
    all_started, four_run, lemma_four_run_iff, lemma_start_creates_fills_slots,
    lemma_start_creates_waits, same_batch, started,
};

verus! {

/// A create runs.
pub open spec fn some_run(sealed: Seq<SealedModel>) -> bool {
    exists|i: int| 0 <= i < sealed.len() && (#[trigger] sealed[i]).state == CreateState::InFlight
}

/// A batch failed.
pub open spec fn some_failed(sealed: Seq<SealedModel>) -> bool {
    exists|i: int| 0 <= i < sealed.len() && (#[trigger] sealed[i]).state is Failed
}

/// Behind a batch that was not started, none was.
pub open spec fn started_in_order(sealed: Seq<SealedModel>) -> bool {
    forall|i: int, j: int|
        0 <= i < j < sealed.len() && (#[trigger] sealed[i]).state == CreateState::Pending ==> (
        #[trigger] sealed[j]).state == CreateState::Pending
}

/// The batches in the pipeline of a store that goes on: creates are held back exactly while a
/// failure is being settled; the batches that were started are the first ones in the durable mode,
/// and the enqueued mode holds nothing back.
pub open spec fn is_regular(actor: ActorModel) -> bool {
    &&& actor.draining <==> some_failed(actor.sealed)
    &&& actor.ack_mode == AckMode::Durable ==> started_in_order(actor.sealed)
    &&& actor.ack_mode == AckMode::Enqueued ==> !actor.draining
    &&& actor.batch.entries.len() == 0 ==> actor.batch.first_admitted_at is None
    &&& actor.max_unpersisted_bytes > 0
}

/// No slot is idle: the first batch is not created, because it would have been settled; every batch
/// is started or four creates run, unless a failure is being settled; and then a create runs.
pub open spec fn is_working(actor: ActorModel) -> bool {
    &&& is_regular(actor)
    &&& actor.sealed.len() > 0 ==> actor.sealed[0].state != CreateState::Created
    &&& !actor.draining ==> all_started(actor.sealed) || four_run(actor.sealed)
    &&& actor.draining ==> some_run(actor.sealed)
}

/// The store goes on: it is neither stopped nor failed.
pub open spec fn goes_on(actor: ActorModel) -> bool {
    !actor.stopped && actor.terminal is None
}

/// While the store goes on, no slot is idle, and an append that is held back has an upload to wait
/// for.
pub open spec fn is_busy(actor: ActorModel) -> bool {
    goes_on(actor) ==> is_working(actor) && (actor.stalled.len() > 0 ==> some_run(actor.sealed))
}

proof fn lemma_some_run_iff(sealed: Seq<SealedModel>)
    ensures
        in_flight(sealed) > 0 <==> some_run(sealed),
    decreases sealed.len(),
{
    if sealed.len() > 0 {
        let front = sealed.drop_last();
        lemma_some_run_iff(front);
        if some_run(front) {
            let i = choose|i: int|
                0 <= i < front.len() && (#[trigger] front[i]).state == CreateState::InFlight;
            assert(sealed[i] == front[i]);
        }
        if some_run(sealed) && sealed.last().state != CreateState::InFlight {
            let i = choose|i: int|
                0 <= i < sealed.len() && (#[trigger] sealed[i]).state == CreateState::InFlight;
            assert(front[i] == sealed[i]);
        }
        if sealed.last().state == CreateState::InFlight {
            assert(sealed[sealed.len() - 1].state == CreateState::InFlight);
        }
    }
}

/// While a store works, a batch that is sealed means that a create runs.
proof fn lemma_working_runs(actor: ActorModel)
    requires
        is_working(actor),
        actor.sealed.len() > 0,
    ensures
        some_run(actor.sealed),
{
    if !actor.draining {
        if four_run(actor.sealed) {
            lemma_four_run_iff(actor.sealed);
            lemma_some_run_iff(actor.sealed);
        } else {
            assert(!(actor.sealed[0].state is Failed));
            assert(actor.sealed[0].state != CreateState::Pending);
            assert(actor.sealed[0].state == CreateState::InFlight);
        }
    }
}

/// Only the states of the batches matter.
proof fn lemma_same_states(a: Seq<SealedModel>, b: Seq<SealedModel>)
    requires
        a.len() == b.len(),
        forall|i: int| 0 <= i < a.len() ==> (#[trigger] a[i]).state == b[i].state,
    ensures
        in_flight(a) == in_flight(b),
        some_run(a) == some_run(b),
        some_failed(a) == some_failed(b),
        started_in_order(a) == started_in_order(b),
        all_started(a) == all_started(b),
        four_run(a) == four_run(b),
    decreases a.len(),
{
    if a.len() > 0 {
        let c = a.drop_last();
        let d = b.drop_last();
        assert forall|i: int| 0 <= i < c.len() implies (#[trigger] c[i]).state == d[i].state by {
            assert(a[i].state == b[i].state);
        }
        lemma_same_states(c, d);
        assert(a[a.len() - 1].state == b[b.len() - 1].state);
    }
    lemma_some_run_iff(a);
    lemma_some_run_iff(b);
    lemma_four_run_iff(a);
    lemma_four_run_iff(b);
    if some_failed(a) {
        let i = choose|i: int| 0 <= i < a.len() && (#[trigger] a[i]).state is Failed;
        assert(b[i].state is Failed);
    }
    if some_failed(b) {
        let i = choose|i: int| 0 <= i < b.len() && (#[trigger] b[i]).state is Failed;
        assert(a[i].state is Failed);
    }
    if started_in_order(a) {
        assert forall|i: int, j: int|
            0 <= i < j < b.len() && (#[trigger] b[i]).state == CreateState::Pending implies (
        #[trigger] b[j]).state == CreateState::Pending by {
            assert(a[i].state == CreateState::Pending);
            assert(a[j].state == CreateState::Pending);
        }
    }
    if started_in_order(b) {
        assert forall|i: int, j: int|
            0 <= i < j < a.len() && (#[trigger] a[i]).state == CreateState::Pending implies (
        #[trigger] a[j]).state == CreateState::Pending by {
            assert(b[i].state == CreateState::Pending);
            assert(b[j].state == CreateState::Pending);
        }
    }
    if all_started(a) {
        assert forall|i: int| 0 <= i < b.len() implies (#[trigger] b[i]).state
            != CreateState::Pending by {
            assert(a[i].state == b[i].state);
        }
    }
    if all_started(b) {
        assert forall|i: int| 0 <= i < a.len() implies (#[trigger] a[i]).state
            != CreateState::Pending by {
            assert(a[i].state == b[i].state);
        }
    }
}

proof fn lemma_start_from_in_order(actor: ActorModel, i: int, running: nat)
    requires
        0 <= i <= actor.sealed.len(),
        started_in_order(actor.sealed),
        forall|k: int| 0 <= k < i ==> (#[trigger] actor.sealed[k]).state != CreateState::Pending,
    ensures
        started_in_order(actor.start_from(i, running).sealed),
    decreases actor.sealed.len() - i,
{
    if i >= actor.sealed.len() || running >= 4 {
    } else if actor.sealed[i].state != CreateState::Pending {
        lemma_start_from_in_order(actor, i + 1, running);
    } else {
        let batch = actor.sealed[i];
        let next = ActorModel {
            sealed: actor.sealed.update(
                i,
                SealedModel {
                    state: CreateState::InFlight,
                    attempts: if batch.attempts == u32::MAX {
                        u32::MAX
                    } else {
                        (batch.attempts + 1) as u32
                    },
                    ..batch
                },
            ),
            creates: actor.creates.push(batch.object_seq),
            ..actor
        }.act(crate::writer_laws::create_of(batch));
        assert(started_in_order(next.sealed)) by {
            assert forall|a: int, b: int|
                0 <= a < b < next.sealed.len() && (#[trigger] next.sealed[a]).state
                    == CreateState::Pending implies (#[trigger] next.sealed[b]).state
                == CreateState::Pending by {
                assert(a > i);
                assert(actor.sealed[a].state == CreateState::Pending);
                assert(actor.sealed[b].state == CreateState::Pending);
            }
        }
        lemma_start_from_in_order(next, i + 1, running + 1);
    }
}

/// Starting what can be started makes a regular store work, as long as its first batch is not
/// created, and a create runs while a failure is being settled.
proof fn lemma_start_makes_work(actor: ActorModel)
    requires
        !actor.stopped,
        is_regular(actor),
        actor.sealed.len() > 0 ==> actor.sealed[0].state != CreateState::Created,
        actor.draining ==> some_run(actor.sealed),
    ensures
        is_working(actor.start_creates()),
        some_run(actor.sealed) ==> some_run(actor.start_creates().sealed),
        actor.start_creates() == (ActorModel {
            sealed: actor.start_creates().sealed,
            creates: actor.start_creates().creates,
            actions: actor.start_creates().actions,
            ..actor
        }),
        actor.start_creates().sealed.len() == actor.sealed.len(),
{
    let after = actor.start_creates();
    if actor.draining {
        lemma_start_creates_waits(actor);
    } else {
        lemma_start_creates_fills_slots(actor);
        assert forall|k: int| 0 <= k < after.sealed.len() implies ((
        #[trigger] after.sealed[k]).state == actor.sealed[k].state || (actor.sealed[k].state
            == CreateState::Pending && after.sealed[k].state == CreateState::InFlight)) by {
            assert(same_batch(after.sealed[k], actor.sealed[k]));
        }
        if some_failed(after.sealed) {
            let i = choose|i: int|
                0 <= i < after.sealed.len() && (#[trigger] after.sealed[i]).state is Failed;
            assert(actor.sealed[i].state is Failed);
        }
        if actor.ack_mode == AckMode::Durable {
            reveal(ActorModel::start_creates);
            lemma_start_from_in_order(actor, 0, in_flight(actor.sealed));
        }
        if some_run(actor.sealed) {
            let i = choose|i: int|
                0 <= i < actor.sealed.len() && (#[trigger] actor.sealed[i]).state
                    == CreateState::InFlight;
            assert(after.sealed[i].state == CreateState::InFlight);
        }
    }
}

/// Sealing keeps a store at work.
proof fn lemma_flush_keeps_working(actor: ActorModel)
    requires
        goes_on(actor),
        is_working(actor),
    ensures
        ({
            let after = actor.flush();
            &&& goes_on(after) ==> is_working(after) && after.stalled == actor.stalled
            &&& goes_on(after) && some_run(actor.sealed) ==> some_run(after.sealed)
            &&& goes_on(after) && actor.batch.entries.len() > 0 ==> after.sealed.len() > 0
            &&& after.ack_mode == actor.ack_mode
            &&& after.stopped == actor.stopped
        }),
{
    reveal(ActorModel::flush);
    reveal(ActorModel::poison);
    let after = actor.flush();
    if actor.seals() {
        let noted = actor.sealed_noted();
        let n = actor.sealed.len() as int;
        assert(noted.sealed[n].state == CreateState::Pending);
        assert forall|k: int| 0 <= k < n implies #[trigger] noted.sealed[k] == actor.sealed[k] by {
        }
        if some_failed(noted.sealed) {
            let i = choose|i: int|
                0 <= i < noted.sealed.len() && (#[trigger] noted.sealed[i]).state is Failed;
            assert(actor.sealed[i].state is Failed);
        }
        if some_failed(actor.sealed) {
            let i = choose|i: int|
                0 <= i < actor.sealed.len() && (#[trigger] actor.sealed[i]).state is Failed;
            assert(noted.sealed[i].state is Failed);
        }
        if some_run(actor.sealed) {
            let i = choose|i: int|
                0 <= i < actor.sealed.len() && (#[trigger] actor.sealed[i]).state
                    == CreateState::InFlight;
            assert(noted.sealed[i].state == CreateState::InFlight);
        }
        if actor.ack_mode == AckMode::Durable {
            assert forall|i: int, j: int|
                0 <= i < j < noted.sealed.len() && (#[trigger] noted.sealed[i]).state
                    == CreateState::Pending implies (#[trigger] noted.sealed[j]).state
                == CreateState::Pending by {
                if j < n {
                    assert(actor.sealed[i].state == CreateState::Pending);
                    assert(actor.sealed[j].state == CreateState::Pending);
                }
            }
        }
        lemma_start_makes_work(noted);
    }
}

/// Taking an append in keeps a store at work.
proof fn lemma_take_in_keeps_working(
    actor: ActorModel,
    entries: Seq<Entry>,
    waiter: u64,
    now: u64,
)
    requires
        goes_on(actor),
        is_working(actor),
    ensures
        ({
            let after = actor.take_in(entries, waiter, now);
            &&& goes_on(after) ==> is_working(after) && after.stalled == actor.stalled
            &&& goes_on(after) && some_run(actor.sealed) ==> some_run(after.sealed)
            &&& after.ack_mode == actor.ack_mode
            &&& after.stopped == actor.stopped
        }),
{
    reveal(ActorModel::take_in);
    reveal(ActorModel::enter);
    reveal(ActorModel::poison);
    lemma_flush_keeps_working(actor);
    let seals_first = actor.batch.entries.len() > 0 && actor.batch.exhausted(entries) is Some;
    let open = if seals_first {
        actor.flush()
    } else {
        actor
    };
    if !(seals_first && open.terminal is Some) && open.next_object_seq is Some
        && open.batch.exhausted(entries) is None {
        let object_seq = open.next_object_seq->0;
        let last_ids = placed_last_ids(object_seq, open.batch.entries, entries);
        let entered = ActorModel {
            batch: open.batch.with(object_seq, entries, now),
            issued: raise_issued(open.issued, last_ids),
            ..open
        };
        let noted = match open.ack_mode {
            AckMode::Durable => ActorModel {
                pending: open.pending.push(PendingModel { waiter, last_ids }),
                ..entered
            },
            AckMode::Enqueued => entered.answer_append(waiter, Ok(last_ids)),
        };
        assert(is_working(noted));
        lemma_flush_keeps_working(noted);
    }
}

/// At a threshold there is something to upload, and it is uploaded.
proof fn lemma_threshold_has_upload(actor: ActorModel, now: u64)
    requires
        goes_on(actor),
        is_working(actor),
        actor.at_threshold(now),
    ensures
        ({
            let after = actor.ensure_create_in_flight();
            &&& goes_on(after) ==> is_working(after) && some_run(after.sealed) && after.stalled
                == actor.stalled
            &&& after.ack_mode == actor.ack_mode
            &&& after.stopped == actor.stopped
        }),
{
    lemma_flush_keeps_working(actor);
    lemma_find_state_bounds(actor.sealed, CreateState::InFlight, 0);
    let found = find_state(actor.sealed, CreateState::InFlight, 0);
    if found is Some {
        assert(actor.sealed[found->0].state == CreateState::InFlight);
    } else {
        if actor.sealed.len() > 0 {
            lemma_working_runs(actor);
            let i = choose|i: int|
                0 <= i < actor.sealed.len() && (#[trigger] actor.sealed[i]).state
                    == CreateState::InFlight;
            crate::outcome_laws::lemma_state_is_found(
                actor.sealed,
                CreateState::InFlight,
                0,
                i,
            );
        }
        assert(actor.sealed.len() == 0);
        assert(actor.batch.entries.len() > 0) by {
            if actor.batch.entries.len() == 0 {
                assert(total_size(actor.batch.entries) == 0);
                assert(sealed_bytes(actor.sealed) == 0);
            }
        }
        let after = actor.flush();
        if goes_on(after) {
            lemma_working_runs(after);
        }
    }
}

proof fn lemma_release_keeps_busy(actor: ActorModel, now: u64)
    requires
        goes_on(actor) ==> is_working(actor),
    ensures
        is_busy(actor.release_stalled(now)),
        actor.release_stalled(now).ack_mode == actor.ack_mode,
    decreases actor.stalled.len(),
{
    reveal(ActorModel::flush);
    reveal(ActorModel::poison);
    if actor.stalled.len() == 0 || actor.stopped {
    } else if actor.terminal is Some {
        lemma_failed_stays_failed(actor, now);
    } else if actor.at_threshold(now) {
        lemma_threshold_has_upload(actor, now);
    } else {
        let first = actor.stalled[0];
        let popped = ActorModel { stalled: actor.stalled.drop_first(), ..actor };
        let next = popped.take_in(first.entries, first.waiter, now);
        lemma_take_in_keeps_working(popped, first.entries, first.waiter, now);
        lemma_take_in_keeps_stalled(popped, first.entries, first.waiter, now);
        lemma_release_keeps_busy(next, now);
    }
}

/// A failed store does not recover.
proof fn lemma_failed_stays_failed(actor: ActorModel, now: u64)
    requires
        actor.terminal is Some,
    ensures
        actor.release_stalled(now).terminal is Some,
        actor.release_stalled(now).ack_mode == actor.ack_mode,
    decreases actor.stalled.len(),
{
    reveal(ActorModel::flush);
    reveal(ActorModel::take_in);
    reveal(ActorModel::enter);
    reveal(ActorModel::poison);
    if actor.stalled.len() == 0 || actor.stopped || actor.at_threshold(now) {
    } else {
        let first = actor.stalled[0];
        let popped = ActorModel { stalled: actor.stalled.drop_first(), ..actor };
        let next = popped.take_in(first.entries, first.waiter, now);
        assert(next.terminal is Some && next.ack_mode == actor.ack_mode);
        lemma_take_in_keeps_stalled(popped, first.entries, first.waiter, now);
        lemma_failed_stays_failed(next, now);
    }
}

/// Settling the front leaves a first batch that is not created, and settles a failure unless a
/// create runs.
proof fn lemma_settle_front_is_regular(actor: ActorModel)
    requires
        actor.valid(),
        goes_on(actor),
        is_regular(actor),
    ensures
        ({
            let after = actor.settle_front();
            &&& after.ack_mode == actor.ack_mode
            &&& after.stopped == actor.stopped
            &&& goes_on(after) ==> {
                &&& is_regular(after)
                &&& after.sealed.len() > 0 ==> after.sealed[0].state != CreateState::Created
                &&& after.draining ==> some_run(after.sealed)
            }
        }),
    decreases actor.sealed.len(),
{
    reveal(ActorModel::poison);
    reveal(ActorModel::roll_back);
    if actor.sealed.len() > 0 {
        let front = actor.sealed[0];
        if front.state == CreateState::Created {
            lemma_front_is_accepted(actor);
            lemma_index_front_follows(actor);
            let next = actor.index_front();
            assert forall|k: int| 0 <= k < next.sealed.len() implies #[trigger] next.sealed[k]
                == actor.sealed[k + 1] by {}
            if some_failed(actor.sealed) {
                let i = choose|i: int|
                    0 <= i < actor.sealed.len() && (#[trigger] actor.sealed[i]).state is Failed;
                assert(next.sealed[i - 1].state is Failed);
            }
            if some_failed(next.sealed) {
                let i = choose|i: int|
                    0 <= i < next.sealed.len() && (#[trigger] next.sealed[i]).state is Failed;
                assert(actor.sealed[i + 1].state is Failed);
            }
            if actor.ack_mode == AckMode::Durable {
                assert forall|i: int, j: int|
                    0 <= i < j < next.sealed.len() && (#[trigger] next.sealed[i]).state
                        == CreateState::Pending implies (#[trigger] next.sealed[j]).state
                    == CreateState::Pending by {
                    assert(actor.sealed[i + 1].state == CreateState::Pending);
                    assert(actor.sealed[j + 1].state == CreateState::Pending);
                }
            }
            lemma_settle_front_is_regular(next);
        } else if front.state is Failed {
            lemma_find_state_bounds(actor.sealed, CreateState::InFlight, 0);
            let found = find_state(actor.sealed, CreateState::InFlight, 0);
            if found is Some {
                assert(actor.sealed[found->0].state == CreateState::InFlight);
            }
        } else if front.state == CreateState::Pending && actor.draining {
            let i = choose|i: int|
                0 <= i < actor.sealed.len() && (#[trigger] actor.sealed[i]).state is Failed;
            assert(actor.sealed[i].state == CreateState::Pending);
        } else if front.state == CreateState::InFlight {
            assert(some_run(actor.sealed));
        }
    }
}

/// The batch at the place is the one that was started and has completed.
proof fn lemma_completed_is_regular(actor: ActorModel, i: int, state: CreateState, draining: bool)
    requires
        is_regular(actor),
        0 <= i < actor.sealed.len(),
        actor.sealed[i].state == CreateState::InFlight,
        state == CreateState::Created || state is Failed || (state == CreateState::Pending
            && actor.ack_mode == AckMode::Enqueued),
        state is Failed ==> actor.ack_mode == AckMode::Durable && draining,
        !(state is Failed) ==> draining == actor.draining,
    ensures
        is_regular(ActorModel { draining, ..actor.with_state(i, state) }),
{
    let after = actor.with_state(i, state);
    assert forall|k: int| 0 <= k < after.sealed.len() && k != i implies #[trigger] after.sealed[k]
        == actor.sealed[k] by {}
    assert(after.sealed[i].state == state);
    if some_failed(actor.sealed) {
        let k = choose|k: int|
            0 <= k < actor.sealed.len() && (#[trigger] actor.sealed[k]).state is Failed;
        assert(after.sealed[k].state is Failed);
    }
    if some_failed(after.sealed) && !(state is Failed) {
        let k = choose|k: int|
            0 <= k < after.sealed.len() && (#[trigger] after.sealed[k]).state is Failed;
        assert(actor.sealed[k].state is Failed);
    }
    if actor.ack_mode == AckMode::Durable {
        assert forall|a: int, b: int|
            0 <= a < b < after.sealed.len() && (#[trigger] after.sealed[a]).state
                == CreateState::Pending implies (#[trigger] after.sealed[b]).state
            == CreateState::Pending by {
            assert(actor.sealed[a].state == CreateState::Pending);
            assert(actor.sealed[b].state == CreateState::Pending);
        }
    }
}

/// The outcome of a create that runs keeps a store busy.
proof fn lemma_create_completed_keeps_busy(
    actor: ActorModel,
    object_seq: u64,
    result: Result<(), crate::error::Error>,
    now: u64,
)
    requires
        actor.valid(),
        is_busy(actor),
        forall|i: int|
            0 <= i < actor.sealed.len() && (#[trigger] actor.sealed[i]).object_seq == object_seq
                ==> actor.sealed[i].state == CreateState::InFlight,
    ensures
        is_busy(actor.create_completed(object_seq, result, now)),
{
    reveal(ActorModel::poison);
    let done = actor.create_done(object_seq);
    let after = actor.create_completed(object_seq, result, now);
    lemma_find_seq_bounds(actor.sealed, object_seq, 0);
    if !goes_on(actor) {
        crate::actor_laws::lemma_create_completed_follows(actor, object_seq, result, now);
        reveal(keeps);
    } else if let Some(i) = find_seq(actor.sealed, object_seq, 0) {
        assert(actor.sealed[i].state == CreateState::InFlight);
        lemma_create_done_follows(actor, object_seq);
        let noted = match result {
            Ok(()) => done.with_state(i, CreateState::Created),
            Err(error) => if actor.ack_mode == AckMode::Enqueued {
                done.with_state(i, CreateState::Pending)
            } else {
                ActorModel {
                    draining: true,
                    ..done.with_state(i, CreateState::Failed(error))
                }
            },
        };
        let ends = result matches Err(error) && !(error is WalObjectStore);
        if !ends {
            match result {
                Ok(()) => {
                    lemma_with_state_follows(done, i, CreateState::Created);
                    lemma_completed_is_regular(done, i, CreateState::Created, done.draining);
                },
                Err(error) => {
                    if actor.ack_mode == AckMode::Enqueued {
                        lemma_with_state_follows(done, i, CreateState::Pending);
                        lemma_completed_is_regular(
                            done,
                            i,
                            CreateState::Pending,
                            done.draining,
                        );
                    } else {
                        let failed = done.with_state(i, CreateState::Failed(error));
                        lemma_with_state_follows(done, i, CreateState::Failed(error));
                        lemma_draining_follows(failed);
                        lemma_completed_is_regular(
                            done,
                            i,
                            CreateState::Failed(error),
                            true,
                        );
                    }
                },
            }
            assert(noted.valid() && is_regular(noted));
            assert(after == noted.settle(now));
            let front = noted.settle_front();
            lemma_settle_front_is_regular(noted);
            lemma_settle_front_follows(noted);
            let running = front.start_creates();
            if goes_on(front) {
                lemma_start_makes_work(front);
            } else {
                lemma_start_creates_follows(front);
                reveal(keeps);
            }
            lemma_release_keeps_busy(running, now);
        }
    }
}

/// Sealing, ticking and stopping keep a store busy.
proof fn lemma_seal_keeps_busy(actor: ActorModel, waiter: u64)
    requires
        is_busy(actor),
        goes_on(actor),
    ensures
        is_busy(actor.seal_requested(waiter)),
{
    lemma_flush_keeps_working(actor);
    let flushed = actor.flush();
    let after = actor.seal_requested(waiter);
    if actor.seals() {
        crate::actor_model::lemma_flush_seals(actor);
        lemma_same_states(flushed.sealed, after.sealed);
    }
}

proof fn lemma_stop_keeps_busy(actor: ActorModel, waiter: u64)
    requires
        is_busy(actor),
        goes_on(actor),
    ensures
        is_busy(actor.begin_exit(waiter)),
{
    let after = actor.begin_exit(waiter);
    if actor.ack_mode == AckMode::Enqueued {
        let failure = crate::error::Failure::Own(crate::error::Error::ObjectStoreWalStopped);
        let stopping = ActorModel { stop: actor.stop.push(waiter), ..actor };
        let dropped = ActorModel {
            stalled: Seq::empty(),
            ..stopping.act_all(crate::actor_model::fail_stalled(actor.stalled, failure))
        };
        assert(is_working(dropped));
        lemma_flush_keeps_working(dropped);
    } else {
        lemma_find_state_bounds(actor.sealed, CreateState::Pending, 0);
        lemma_first_pending(actor.sealed, 0);
        if let Some(at) = find_state(actor.sealed, CreateState::Pending, 0) {
            assert forall|k: int| 0 <= k < at implies #[trigger] after.sealed[k]
                == actor.sealed[k] by {}
            assert forall|k: int| at <= k < actor.sealed.len() implies (
            #[trigger] actor.sealed[k]).state == CreateState::Pending by {
                if k > at {
                    assert(actor.sealed[at].state == CreateState::Pending);
                }
            }
            if some_failed(actor.sealed) {
                let i = choose|i: int|
                    0 <= i < actor.sealed.len() && (#[trigger] actor.sealed[i]).state is Failed;
                assert(after.sealed[i].state is Failed);
            }
            if some_failed(after.sealed) {
                let i = choose|i: int|
                    0 <= i < after.sealed.len() && (#[trigger] after.sealed[i]).state is Failed;
                assert(actor.sealed[i].state is Failed);
            }
            if some_run(actor.sealed) {
                let i = choose|i: int|
                    0 <= i < actor.sealed.len() && (#[trigger] actor.sealed[i]).state
                        == CreateState::InFlight;
                assert(after.sealed[i].state == CreateState::InFlight);
            }
            assert(started_in_order(after.sealed)) by {
                assert forall|i: int, j: int|
                    0 <= i < j < after.sealed.len() && (#[trigger] after.sealed[i]).state
                        == CreateState::Pending implies (#[trigger] after.sealed[j]).state
                    == CreateState::Pending by {
                    assert(actor.sealed[i].state == CreateState::Pending);
                }
            }
            assert(all_started(after.sealed));
        }
    }
}

proof fn lemma_first_pending(sealed: Seq<SealedModel>, from: int)
    requires
        0 <= from,
    ensures
        match find_state(sealed, CreateState::Pending, from) {
            Some(at) => forall|k: int|
                from <= k < at ==> (#[trigger] sealed[k]).state != CreateState::Pending,
            None => forall|k: int|
                from <= k < sealed.len() ==> (#[trigger] sealed[k]).state != CreateState::Pending,
        },
    decreases sealed.len() - from,
{
    if from < sealed.len() && sealed[from].state != CreateState::Pending {
        lemma_first_pending(sealed, from + 1);
    }
}

/// Every event keeps a store busy, as long as the creates that complete are creates that run: no
/// slot is idle while a batch waits for one, in either mode; the first batch is settled as soon as
/// it is created; a failure is settled as soon as no create runs; and an append that is held back
/// has an upload to wait for.
pub proof fn lemma_step_keeps_busy(actor: ActorModel, event: Event)
    requires
        actor.valid(),
        is_busy(actor),
        event matches Event::CreateCompleted { object_seq, .. } ==> forall|i: int|
            0 <= i < actor.sealed.len() && (#[trigger] actor.sealed[i]).object_seq == object_seq
                ==> actor.sealed[i].state == CreateState::InFlight,
    ensures
        is_busy(actor.step(event)),
{
    if !goes_on(actor) {
        lemma_step_follows(actor, event);
        reveal(keeps);
    } else {
        match event {
            Event::Append { entries, waiter, now } => {
                if actor.ack_mode == AckMode::Enqueued && actor.at_threshold(now) {
                    let held = ActorModel {
                        stalled: actor.stalled.push(StalledModel { entries, waiter }),
                        ..actor
                    };
                    lemma_threshold_has_upload(held, now);
                } else {
                    lemma_take_in_keeps_working(actor, entries, waiter, now);
                }
            },
            Event::CreateCompleted { object_seq, result, now } => {
                lemma_create_completed_keeps_busy(actor, object_seq, result, now);
            },
            Event::DeleteCompleted { .. } => {},
            Event::WaitDurable { .. } => {},
            Event::Obsolete { .. } => {
                reveal(ActorModel::raise_sequence_floor);
                reveal(ActorModel::collect_garbage);
                reveal(ActorModel::poison);
            },
            Event::RecordObsolete { .. } => {},
            Event::Seal { waiter } => {
                lemma_seal_keeps_busy(actor, waiter);
            },
            Event::Tick => {
                lemma_flush_keeps_working(actor);
            },
            Event::BeginStop => {},
            Event::Stop { waiter } => {
                lemma_stop_keeps_busy(actor, waiter);
            },
            Event::FinishStop => {},
        }
    }
}

/// A store that was just opened has nothing to wait for.
pub proof fn lemma_opened_is_busy(
    settings: ActorSettings,
    catalog: CatalogModel,
    next_object_seq: u64,
    durable_ids: Map<u64, EntryId>,
)
    requires
        settings.max_unpersisted_bytes > 0,
    ensures
        is_busy(opened(settings, catalog, next_object_seq, durable_ids)),
{
}

/// While a store goes on, a sealed batch always has an upload that runs, its own or an earlier one,
/// and so has every append that is held back.
pub proof fn lemma_what_waits_has_an_upload(actor: ActorModel)
    requires
        is_busy(actor),
        goes_on(actor),
        actor.sealed.len() > 0 || actor.stalled.len() > 0,
    ensures
        exists|i: int|
            0 <= i < actor.sealed.len() && (#[trigger] actor.sealed[i]).state
                == CreateState::InFlight,
{
    if actor.sealed.len() > 0 {
        lemma_working_runs(actor);
    }
}

} // verus!
