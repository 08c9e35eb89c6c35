use greptime::ledger::{
    gap_to, sum_used, Account, AccountGuard, Category, MemoryError, MemoryLedger,
    OnExhaustedPolicy, PermitGranularity,
};

const KB: u64 = 1024;

fn account(limit_kb: u64) -> Account {
    Account::new(
        "test".to_string(),
        Category::Query,
        limit_kb * KB,
        PermitGranularity::Kilobyte,
    )
}

/// Acquires what is within the limit and available.
fn acquire(account: &mut Account, bytes: u64) -> Result<Option<AccountGuard>, MemoryError> {
    account.ensure_within_target(bytes)?;
    Ok(account.acquire_checked(bytes))
}

/// Runs rounds of the shrink collector while its chunks are available. Returns the chunk it still
/// waits for, or none once the account has converged.
fn collect_rounds(account: &mut Account) -> Option<u32> {
    loop {
        match account.harvest() {
            None => return None,
            Some(chunk) => {
                if !account.take_chunk(chunk) {
                    return Some(chunk);
                }
                account.settle_chunk(chunk);
            }
        }
    }
}

#[test]
fn grow_makes_capacity_available_at_once() {
    let mut acc = account(4);
    let held = acquire(&mut acc, 4 * KB).unwrap().unwrap();
    assert!(acquire(&mut acc, 2 * KB).unwrap().is_none());

    assert_eq!(acc.set_limit_bytes(8 * KB), 0);
    let got = acquire(&mut acc, 2 * KB).unwrap().unwrap();
    assert_eq!(got.granted_bytes(), 2 * KB);
    assert_eq!(acc.effective_limit_bytes(), 8 * KB);
    assert_eq!(acc.used_bytes(), 6 * KB);
    held.release(&mut acc);
    assert_eq!(acc.used_bytes(), 2 * KB);
}

#[test]
fn shrink_idle_capacity_is_instant() {
    let mut acc = account(8);
    let deficit = acc.set_limit_bytes(4 * KB);
    assert_eq!(deficit, 0);
    assert_eq!(acc.effective_limit_bytes(), 4 * KB);
    // Oversized requests fail fast against the new target.
    assert!(acquire(&mut acc, 5 * KB).is_err());
    assert!(acc.try_acquire(5 * KB).is_none());
    assert!(acc.try_acquire(4 * KB).is_some());
}

#[test]
fn shrink_is_non_preemptive_and_converges() {
    let mut acc = account(10);
    let mut held = acquire(&mut acc, 8 * KB).unwrap().unwrap();

    // Shrink to 4: 2 idle permits harvested instantly, 4 in deficit.
    let deficit = acc.set_limit_bytes(4 * KB);
    assert_eq!(deficit, 4 * KB);
    // Granted memory is untouched.
    assert_eq!(held.granted_bytes(), 8 * KB);
    assert_eq!(acc.effective_limit_bytes(), 8 * KB);

    assert!(acc.begin_collect());
    assert_eq!(collect_rounds(&mut acc), Some(4));
    // Still not converged: nothing released yet.
    assert_eq!(acc.effective_limit_bytes(), 8 * KB);

    // Release 4 KB; the collector should absorb it.
    assert_eq!(held.shrink(&mut acc, 4 * KB), 4 * KB);
    assert_eq!(collect_rounds(&mut acc), None);
    assert_eq!(acc.effective_limit_bytes(), 4 * KB);
    assert_eq!(acc.target_limit_bytes(), 4 * KB);
    assert_eq!(acc.used_bytes(), 4 * KB);
    held.release(&mut acc);
    assert_eq!(acc.used_bytes(), 0);
}

#[test]
fn two_faces_share_one_budget() {
    let mut acc = account(10);

    // The failing face holds 6.
    let other = acc.acquire_or_fail(6 * KB).unwrap();

    // The growing face grows to exactly the remainder.
    let mut guard = acc.try_acquire(0).unwrap();
    assert!(guard.try_grow(&mut acc, 4 * KB));
    assert_eq!(acc.used_bytes(), 10 * KB);
    // One budget: nothing left for either face.
    assert!(!guard.try_grow(&mut acc, KB));
    assert!(acc.try_acquire(KB).is_none());
    assert_eq!(
        Err(MemoryError::MemoryLimitExceeded {
            requested_bytes: KB,
            limit_bytes: 10 * KB,
        }),
        acc.acquire_or_fail(KB).map(|guard| guard.granted_bytes())
    );

    // One face releases; the other can claim it.
    other.release(&mut acc);
    assert!(guard.try_grow(&mut acc, 6 * KB));
    assert_eq!(acc.used_bytes(), 10 * KB);

    // Partial shrink returns capacity to the shared budget. Sub-permit
    // amounts round down: the remainder stays granted.
    assert_eq!(guard.shrink(&mut acc, KB - 1), 0);
    assert_eq!(guard.shrink(&mut acc, 3 * KB + 512), 3 * KB);
    assert_eq!(acc.used_bytes(), 7 * KB);
    assert!(acc.try_acquire(3 * KB).is_some());
}

#[test]
fn concurrent_collect_shrink_single_flight_converges() {
    let mut acc = account(8);
    let mut held = acquire(&mut acc, 8 * KB).unwrap().unwrap();
    assert_eq!(acc.set_limit_bytes(4 * KB), 4 * KB);

    // The collector waits for its first chunk: all capacity is granted.
    assert!(acc.begin_collect());
    let waiting = collect_rounds(&mut acc).unwrap();
    assert_eq!(waiting, 4);

    // A concurrent call returns at once without waiting for convergence.
    assert!(!acc.begin_collect());
    assert_eq!(acc.effective_limit_bytes(), 8 * KB);

    // Retarget below the in-flight target: the running collector must
    // observe the new target and converge to it.
    assert_eq!(acc.set_limit_bytes(2 * KB), 6 * KB);
    assert_eq!(held.shrink(&mut acc, 6 * KB), 6 * KB);
    assert!(acc.take_chunk(waiting));
    assert_eq!(acc.used_bytes(), 6 * KB);
    acc.settle_chunk(waiting);
    assert_eq!(collect_rounds(&mut acc), None);
    assert_eq!(acc.effective_limit_bytes(), 2 * KB);
    assert_eq!(acc.used_bytes(), 2 * KB);

    // The flag was released on convergence: a fresh call wins it and
    // collects a new deficit instead of returning early.
    assert_eq!(acc.set_limit_bytes(KB), KB);
    assert_eq!(held.shrink(&mut acc, KB), KB);
    assert!(acc.begin_collect());
    assert_eq!(collect_rounds(&mut acc), None);
    assert_eq!(acc.effective_limit_bytes(), KB);
    assert_eq!(acc.used_bytes(), KB);
    held.release(&mut acc);
    assert_eq!(acc.used_bytes(), 0);
}

#[test]
fn cancelled_collect_shrink_releases_single_flight_flag() {
    let mut acc = account(8);
    let held = acquire(&mut acc, 8 * KB).unwrap().unwrap();
    assert_eq!(acc.set_limit_bytes(4 * KB), 4 * KB);

    // Cancel the collector while it waits for its chunk.
    assert!(acc.begin_collect());
    assert_eq!(collect_rounds(&mut acc), Some(4));
    acc.end_collect();
    assert_eq!(acc.effective_limit_bytes(), 8 * KB);

    // A later call must win the flag and converge once capacity frees up.
    held.release(&mut acc);
    assert!(acc.begin_collect());
    assert_eq!(collect_rounds(&mut acc), None);
    assert_eq!(acc.effective_limit_bytes(), 4 * KB);
    assert_eq!(acc.used_bytes(), 0);
}

#[test]
fn a_chunk_is_returned_when_the_limit_was_raised_meanwhile() {
    let mut acc = account(200);
    let mut held = acquire(&mut acc, 200 * KB).unwrap().unwrap();
    assert_eq!(acc.set_limit_bytes(100 * KB), 100 * KB);
    assert!(acc.begin_collect());
    // A round takes at most one chunk.
    assert_eq!(acc.harvest(), Some(64));
    assert_eq!(held.shrink(&mut acc, 64 * KB), 64 * KB);
    assert!(acc.take_chunk(64));
    // The limit is raised to 30 above what is still in use and in the chunk.
    assert_eq!(acc.set_limit_bytes(170 * KB), 30 * KB);
    acc.settle_chunk(64);
    assert_eq!(acc.effective_limit_bytes(), 170 * KB);
    assert_eq!(acc.used_bytes(), 136 * KB);
    assert_eq!(collect_rounds(&mut acc), None);

    // With nothing to collect the whole chunk goes back.
    assert!(acc.take_chunk(10));
    acc.settle_chunk(10);
    assert_eq!(acc.effective_limit_bytes(), 170 * KB);
    assert_eq!(acc.used_bytes(), 136 * KB);
}

#[test]
fn oversized_request_fails_instead_of_clamping() {
    // The limit saturates at u32::MAX permits (4 TiB at KB granularity).
    let mut acc = Account::new(
        "sat".to_string(),
        Category::Query,
        u64::MAX,
        PermitGranularity::Kilobyte,
    );
    assert_eq!(acc.granularity(), PermitGranularity::Kilobyte);
    let max_bytes = PermitGranularity::Kilobyte.permits_to_bytes(u32::MAX);
    assert_eq!(acc.target_limit_bytes(), max_bytes);

    // Requests beyond the saturated target fail loudly instead of being
    // clamped to the maximum permit count by the byte conversion.
    assert!(acquire(&mut acc, max_bytes + KB).is_err());
    assert!(acc.try_acquire(max_bytes + KB).is_none());

    let mut guard = acquire(&mut acc, KB).unwrap().unwrap();
    assert!(!guard.try_grow(&mut acc, max_bytes));
    assert_eq!(
        Err(MemoryError::MemoryLimitExceeded {
            requested_bytes: max_bytes,
            limit_bytes: max_bytes,
        }),
        guard.check_growth(&acc, max_bytes)
    );
    assert!(guard.check_growth(&acc, KB).is_ok());
    assert!(guard.grow_checked(&mut acc, KB));
    assert_eq!(guard.granted_bytes(), 2 * KB);
}

#[test]
fn ledger_snapshot_aggregates() {
    let mut ledger = MemoryLedger::new(100 * KB);
    let a = ledger.register(
        "query/engine".to_string(),
        Category::Query,
        50 * KB,
        PermitGranularity::Kilobyte,
    );
    let b = ledger.register(
        "ingest/request_bytes".to_string(),
        Category::Ingest,
        20 * KB,
        PermitGranularity::Kilobyte,
    );
    assert_eq!((0, 1), (a, b));
    let _g1 = ledger.account_mut(a).try_acquire(10 * KB).unwrap();
    let _g2 = ledger.account_mut(b).try_acquire(5 * KB).unwrap();

    assert_eq!(ledger.root_budget_bytes(), 100 * KB);
    assert_eq!(ledger.total_used_bytes(), 15 * KB);
    assert_eq!(ledger.unaccounted_bytes(40 * KB), 25 * KB);
    assert_eq!(ledger.unaccounted_bytes(KB), 0);
    let snapshot = ledger.snapshot();
    assert_eq!(snapshot.len(), 2);
    assert_eq!(snapshot[0].used_bytes, 10 * KB);
    assert_eq!(snapshot[1].used_bytes, 5 * KB);
    assert_eq!(snapshot[1].name, "ingest/request_bytes");
    assert_eq!(snapshot[1].category, Category::Ingest);
    assert_eq!(snapshot[1].target_limit_bytes, 20 * KB);
    assert_eq!(snapshot[1].effective_limit_bytes, 20 * KB);
    assert_eq!(ledger.account(a).name(), "query/engine");
    assert_eq!(ledger.account(a).category(), Category::Query);
}

#[test]
fn a_wait_that_ends_reports_what_it_waited_for() {
    let policy = OnExhaustedPolicy::Wait { timeout: 500 };
    let OnExhaustedPolicy::Wait { timeout } = policy else {
        panic!("unexpected policy {policy:?}")
    };
    assert_eq!(
        MemoryError::MemoryAcquireTimeout {
            requested_bytes: KB,
            waited: 500,
        },
        Account::timed_out(KB, timeout)
    );
    assert_ne!(OnExhaustedPolicy::Fail, policy);
}

#[test]
fn permits_round_up_and_saturate() {
    let kilobyte = PermitGranularity::Kilobyte;
    assert_eq!(kilobyte.bytes_to_permits(0), 0);
    assert_eq!(kilobyte.bytes_to_permits(1), 1);
    assert_eq!(kilobyte.bytes_to_permits(KB), 1);
    assert_eq!(kilobyte.bytes_to_permits(KB + 1), 2);
    assert_eq!(kilobyte.bytes_to_permits(u64::MAX), u32::MAX);
    assert_eq!(PermitGranularity::Megabyte.bytes(), KB * KB);
    assert_eq!(PermitGranularity::Megabyte.permits_to_bytes(3), 3 * KB * KB);
}

#[test]
fn granted_bytes_are_summed_up() {
    assert_eq!(Some(0), sum_used(&Vec::new()));
    assert_eq!(Some(7), sum_used(&vec![3, 4]));
    assert_eq!(Some(u64::MAX), sum_used(&vec![u64::MAX - 1, 1]));
    assert_eq!(None, sum_used(&vec![u64::MAX, 1, 0]));
    assert_eq!(3, gap_to(10, 7));
    assert_eq!(0, gap_to(7, 10));
}
